//! The puzzle instance: a rectangular grid of colors.

use vstd::prelude::*;

use crate::reach::{
    closed_region, color_at, connected, grid_height, grid_in, grid_wf, grid_width,
    lemma_closed_connected, lemma_connected_color, lemma_connected_refl, lemma_connected_step,
    GridView,
};
use crate::util::{adj4, lemma_drop_last_contains, lemma_no_dup_drop_last, lemma_push_no_dup, neighbours, Point};

verus! {

broadcast use vstd::seq_lib::lemma_seq_contains_after_push;

/// The position of cell `p` in a row-major bitmap of the grid's cells.
pub open spec fn pidx(g: GridView, p: Point) -> int {
    (p.0 as int) * grid_width(g) + (p.1 as int)
}

/// Whether the row-major bitmap `s` marks cell `p`.
pub open spec fn marked(g: GridView, s: Seq<bool>, p: Point) -> bool {
    s[pidx(g, p)]
}

/// Distinct cells of the grid have distinct row-major positions.
pub proof fn lemma_pidx_injective(g: GridView, p: Point, q: Point)
    requires
        grid_in(g, p),
        grid_in(g, q),
        pidx(g, p) == pidx(g, q),
    ensures
        p == q,
{
    let w = grid_width(g);
    assert((p.0 as int) == (q.0 as int) && (p.1 as int) == (q.1 as int)) by (nonlinear_arith)
        requires
            0 <= (p.1 as int) < w,
            0 <= (q.1 as int) < w,
            0 <= (p.0 as int),
            0 <= (q.0 as int),
            (p.0 as int) * w + (p.1 as int) == (q.0 as int) * w + (q.1 as int),
    {}
}

/// How many entries of `s` are true.
spec fn count_trues(s: Seq<bool>) -> nat
    decreases s.len(),
{
    if s.len() == 0 {
        0
    } else {
        count_trues(s.drop_last()) + (if s.last() {
            1nat
        } else {
            0nat
        })
    }
}

proof fn lemma_count_all_false(s: Seq<bool>)
    requires
        forall|k: int| 0 <= k < s.len() ==> !(#[trigger] s[k]),
    ensures
        count_trues(s) == 0,
    decreases s.len(),
{
    if s.len() > 0 {
        lemma_count_all_false(s.drop_last());
    }
}

/// The row-major position of an in-grid cell lies inside the bitmap.
pub proof fn lemma_pidx_bound(g: GridView, p: Point)
    requires
        grid_wf(g),
        grid_in(g, p),
    ensures
        0 <= pidx(g, p) < grid_height(g) * grid_width(g),
{
    let h = grid_height(g);
    let w = grid_width(g);
    assert(0 <= (p.0 as int) * w + (p.1 as int) < h * w) by (nonlinear_arith)
        requires
            0 <= (p.0 as int) < h,
            0 <= (p.1 as int) < w,
    {}
}

proof fn lemma_count_trues_le(s: Seq<bool>)
    ensures
        count_trues(s) <= s.len(),
    decreases s.len(),
{
    if s.len() > 0 {
        lemma_count_trues_le(s.drop_last());
    }
}

proof fn lemma_count_trues_update(s: Seq<bool>, i: int)
    requires
        0 <= i < s.len(),
        !s[i],
    ensures
        count_trues(s.update(i, true)) == count_trues(s) + 1,
    decreases s.len(),
{
    let t = s.update(i, true);
    if i == s.len() - 1 {
        assert(t.drop_last() =~= s.drop_last());
    } else {
        assert(t.drop_last() =~= s.drop_last().update(i, true));
        lemma_count_trues_update(s.drop_last(), i);
    }
}

/// A number denoting a color (by index).
pub type Color = u8;

/// Whether `ch` is a decimal digit.
pub open spec fn is_digit_char(ch: char) -> bool {
    48 <= (ch as u32) <= 57
}

/// The value of the decimal digit `ch`.
pub open spec fn char_digit(ch: char) -> int {
    (ch as u32) - 48
}

/// Whether a sequence of text lines encodes a grid: at least one line, all
/// lines of one positive length of at most 256 characters, at most 256
/// lines, every character a decimal digit, and the digit `0` somewhere.
pub open spec fn lines_valid(lines: Seq<Seq<char>>) -> bool {
    &&& 0 < lines.len() <= 256
    &&& 0 < lines[0].len() <= 256
    &&& forall|i: int| 0 <= i < lines.len() ==> #[trigger] lines[i].len() == lines[0].len()
    &&& forall|i: int, j: int|
        0 <= i < lines.len() && 0 <= j < lines[i].len() ==> is_digit_char(#[trigger] lines[i][j])
    &&& exists|i: int, j: int|
        0 <= i < lines.len() && 0 <= j < lines[i].len() && char_digit(#[trigger] lines[i][j]) == 0
}

/// The grid encoded by a sequence of digit lines.
pub open spec fn grid_of_lines(lines: Seq<Seq<char>>) -> GridView {
    lines.map_values(|row: Seq<char>| row.map_values(|ch: char| char_digit(ch) as u8))
}

/// Whether `n` is the number of colors of the grid: one more than the
/// largest color that occurs.
pub open spec fn is_num_colors(g: GridView, n: int) -> bool {
    &&& 1 <= n <= 256
    &&& forall|p: Point| grid_in(g, p) ==> (#[trigger] color_at(g, p) as int) < n
    &&& exists|p: Point| grid_in(g, p) && (#[trigger] color_at(g, p) as int) == n - 1
}

/// The number of colors is one value: two numbers fitting the description
/// are equal.
pub proof fn lemma_num_colors_unique(g: GridView, a: int, b: int)
    requires
        is_num_colors(g, a),
        is_num_colors(g, b),
    ensures
        a == b,
{
    let pa = choose|p: Point| grid_in(g, p) && (#[trigger] color_at(g, p) as int) == a - 1;
    let pb = choose|p: Point| grid_in(g, p) && (#[trigger] color_at(g, p) as int) == b - 1;
    assert((color_at(g, pa) as int) < b);
    assert((color_at(g, pb) as int) < a);
}

/// A "flood it" problem instance.
pub struct Problem {
    pub grid: Vec<Vec<Color>>,
}

impl View for Problem {
    type V = GridView;

    open spec fn view(&self) -> GridView {
        self.grid@.map_values(|row: Vec<Color>| row@)
    }
}

impl Problem {
    /// Well formed: at least one row, all rows of one positive length, and
    /// small enough that every cell has a `u8` coordinate pair.
    pub open spec fn wf(&self) -> bool {
        grid_wf(self@)
    }

    /// The problem's height.
    pub fn height(&self) -> (r: usize)
        ensures
            r == grid_height(self@),
    {
        self.grid.len()
    }

    /// The problem's width.
    pub fn width(&self) -> (r: usize)
        requires
            self.grid@.len() > 0,
        ensures
            r == grid_width(self@),
    {
        self.grid[0].len()
    }

    /// One more than the largest color number used in this problem.
    pub fn num_colors(&self) -> (r: usize)
        requires
            self.wf(),
        ensures
            is_num_colors(self@, r as int),
    {
        let height = self.height();
        let width = self.width();
        let mut m: u8 = self.grid[0][0];
        let ghost mut wp: Point = (0u8, 0u8);
        let mut y: usize = 0;
        while y < height
            invariant
                self.wf(),
                height == grid_height(self@),
                width == grid_width(self@),
                y <= height,
                grid_in(self@, wp) && color_at(self@, wp) == m,
                forall|p: Point|
                    grid_in(self@, p) && (p.0 as int) < y ==> color_at(self@, p) <= m,
            decreases height - y,
        {
            let mut x: usize = 0;
            while x < width
                invariant
                    self.wf(),
                    height == grid_height(self@),
                    width == grid_width(self@),
                    y < height,
                    x <= width,
                    grid_in(self@, wp) && color_at(self@, wp) == m,
                    forall|p: Point|
                        grid_in(self@, p) && (p.0 as int) < y ==> color_at(self@, p) <= m,
                    forall|p: Point|
                        grid_in(self@, p) && p.0 == y && (p.1 as int) < x ==> color_at(
                            self@,
                            p,
                        ) <= m,
                decreases width - x,
            {
                assert(self@[y as int] == self.grid@[y as int]@);
                let c = self.grid[y][x];
                if c > m {
                    m = c;
                    proof {
                        wp = (y as u8, x as u8);
                    }
                }
                x += 1;
            }
            y += 1;
        }
        (m as usize) + 1
    }

    /// Whether every cell carries the color of the upper left cell.
    pub fn is_single_color(&self) -> (r: bool)
        requires
            self.wf(),
        ensures
            r <==> (forall|p: Point|
                grid_in(self@, p) ==> color_at(self@, p) == color_at(self@, (0u8, 0u8))),
    {
        let height = self.height();
        let width = self.width();
        let c0 = self.grid[0][0];
        let mut y: usize = 0;
        while y < height
            invariant
                self.wf(),
                height == grid_height(self@),
                width == grid_width(self@),
                y <= height,
                c0 == color_at(self@, (0u8, 0u8)),
                forall|p: Point|
                    grid_in(self@, p) && (p.0 as int) < y ==> color_at(self@, p) == c0,
            decreases height - y,
        {
            let mut x: usize = 0;
            while x < width
                invariant
                    self.wf(),
                    height == grid_height(self@),
                    width == grid_width(self@),
                    y < height,
                    x <= width,
                    c0 == color_at(self@, (0u8, 0u8)),
                    forall|p: Point|
                        grid_in(self@, p) && (p.0 as int) < y ==> color_at(self@, p) == c0,
                    forall|p: Point|
                        grid_in(self@, p) && p.0 == y && (p.1 as int) < x ==> color_at(
                            self@,
                            p,
                        ) == c0,
                decreases width - x,
            {
                assert(self@[y as int] == self.grid@[y as int]@);
                if self.grid[y][x] != c0 {
                    proof {
                        let witness: Point = (y as u8, x as u8);
                        assert(grid_in(self@, witness) && color_at(self@, witness) != c0);
                    }
                    return false;
                }
                x += 1;
            }
            y += 1;
        }
        true
    }

    /// Marks and stacks every not-yet-seen same-colored neighbour of `p`.
    ///
    /// `seen` is the row-major bitmap of cells that are already collected,
    /// stacked, or (in the case of `p` itself) in hand; `out` holds the
    /// collected cells and `stack` the cells still to be visited.
    #[verifier::rlimit(100)]
    #[verifier::spinoff_prover]
    fn visit_neighbours(
        &self,
        c: Color,
        p: Point,
        seen: &mut Vec<bool>,
        stack: &mut Vec<Point>,
        out: &Vec<Point>,
        Ghost(start): Ghost<Point>,
    )
        requires
            self.wf(),
            grid_in(self@, start),
            c == color_at(self@, start),
            grid_in(self@, p),
            color_at(self@, p) == c,
            connected(self@, start, p),
            old(seen)@.len() == grid_height(self@) * grid_width(self@),
            count_trues(old(seen)@) <= old(seen)@.len(),
            forall|pt: Point|
                grid_in(self@, pt) ==> (#[trigger] marked(self@, old(seen)@, pt) <==> (
                out@.contains(pt) || old(stack)@.contains(pt) || pt == p)),
            forall|pt: Point|
                #[trigger] old(stack)@.contains(pt) ==> grid_in(self@, pt) && color_at(self@, pt)
                    == c && connected(self@, start, pt),
            old(stack)@.no_duplicates(),
            forall|pt: Point| !(#[trigger] out@.contains(pt) && old(stack)@.contains(pt)),
            !out@.contains(p),
            !old(stack)@.contains(p),
            marked(self@, old(seen)@, p),
        ensures
            final(seen)@.len() == old(seen)@.len(),
            count_trues(final(seen)@) <= final(seen)@.len(),
            forall|pt: Point|
                grid_in(self@, pt) && marked(self@, old(seen)@, pt) ==> #[trigger] marked(
                    self@,
                    final(seen)@,
                    pt,
                ),
            forall|pt: Point|
                grid_in(self@, pt) ==> (#[trigger] marked(self@, final(seen)@, pt) <==> (
                out@.contains(pt) || final(stack)@.contains(pt) || pt == p)),
            forall|pt: Point|
                #[trigger] final(stack)@.contains(pt) ==> grid_in(self@, pt) && color_at(
                    self@,
                    pt,
                ) == c && connected(self@, start, pt),
            final(stack)@.no_duplicates(),
            forall|pt: Point| !(#[trigger] out@.contains(pt) && final(stack)@.contains(pt)),
            !final(stack)@.contains(p),
            forall|q: Point|
                #![trigger adj4(p, q)]
                adj4(p, q) && grid_in(self@, q) && color_at(self@, q) == c ==> marked(
                    self@,
                    final(seen)@,
                    q,
                ),
            5 * (final(seen)@.len() - count_trues(final(seen)@)) + final(stack)@.len() <= 5 * (
            old(seen)@.len() - count_trues(old(seen)@)) + old(stack)@.len(),
    {
        let ghost g = self@;
        let ghost base = old(seen)@;
        let ghost measure0 = 5 * (old(seen)@.len() - count_trues(old(seen)@))
            + old(stack)@.len();
        let height = self.height();
        let width = self.width();
        proof {
            assert(height * width <= 65536) by (nonlinear_arith)
                requires
                    height <= 256,
                    width <= 256,
            {}
        }
        let nbrs = neighbours(p.0, p.1, height, width);
        let mut k: usize = 0;
        while k < nbrs.len()
            invariant
                self.wf(),
                g == self@,
                grid_in(g, start),
                c == color_at(g, start),
                grid_in(g, p),
                color_at(g, p) == c,
                connected(g, start, p),
                height == grid_height(g),
                width == grid_width(g),
                k <= nbrs@.len(),
                forall|q: Point|
                    #![trigger nbrs@.contains(q)]
                    nbrs@.contains(q) <==> (adj4(p, q) && grid_in(g, q)),
                seen@.len() == base.len(),
                base.len() == grid_height(g) * grid_width(g),
                height * width <= 65536,
                count_trues(seen@) <= seen@.len(),
                forall|pt: Point|
                    grid_in(g, pt) && marked(g, base, pt) ==> #[trigger] marked(g, seen@, pt),
                forall|pt: Point|
                    grid_in(g, pt) ==> (#[trigger] marked(g, seen@, pt) <==> (out@.contains(pt)
                        || stack@.contains(pt) || pt == p)),
                forall|pt: Point|
                    #[trigger] stack@.contains(pt) ==> grid_in(g, pt) && color_at(g, pt) == c
                        && connected(g, start, pt),
                stack@.no_duplicates(),
                forall|pt: Point| !(#[trigger] out@.contains(pt) && stack@.contains(pt)),
                !out@.contains(p),
                !stack@.contains(p),
                forall|j: int|
                    0 <= j < k ==> (color_at(g, #[trigger] nbrs@[j]) == c ==> marked(
                        g,
                        seen@,
                        nbrs@[j],
                    )),
                marked(g, seen@, p),
                5 * (seen@.len() - count_trues(seen@)) + stack@.len() <= measure0,
            decreases nbrs@.len() - k,
        {
            let q = nbrs[k];
            proof {
                assert(nbrs@.contains(nbrs@[k as int]));
                lemma_pidx_bound(g, q);
            }
            let qi = (q.0 as usize) * width + (q.1 as usize);
            assert(qi == pidx(g, q));
            assert(self@[q.0 as int] == self.grid@[q.0 as int]@);
            if self.grid[q.0 as usize][q.1 as usize] == c && !seen[qi] {
                let ghost seen_before = seen@;
                proof {
                    assert(!marked(g, seen_before, q));
                    assert(!stack@.contains(q));
                    assert(!out@.contains(q));
                    lemma_push_no_dup(stack@, q);
                }
                seen.set(qi, true);
                stack.push(q);
                proof {
                    lemma_connected_step(g, start, p, q);
                    lemma_count_trues_update(seen_before, pidx(g, q));
                    lemma_count_trues_le(seen@);
                    assert forall|pt: Point|
                        grid_in(g, pt) implies (#[trigger] marked(g, seen@, pt) <==> (
                    out@.contains(pt) || stack@.contains(pt) || pt == p)) by {
                        lemma_pidx_bound(g, pt);
                        if pidx(g, pt) == pidx(g, q) {
                            lemma_pidx_injective(g, pt, q);
                        } else {
                            assert(marked(g, seen@, pt) == marked(g, seen_before, pt));
                        }
                    }
                    assert forall|pt: Point|
                        grid_in(g, pt) && marked(g, base, pt) implies #[trigger] marked(
                        g,
                        seen@,
                        pt,
                    ) by {
                        lemma_pidx_bound(g, pt);
                        assert(marked(g, seen_before, pt));
                        if pidx(g, pt) != pidx(g, q) {
                            assert(marked(g, seen@, pt) == marked(g, seen_before, pt));
                        }
                    }
                    assert forall|j: int|
                        0 <= j < k implies (color_at(g, #[trigger] nbrs@[j]) == c ==> marked(
                        g,
                        seen@,
                        nbrs@[j],
                    )) by {
                        assert(nbrs@.contains(nbrs@[j]));
                        lemma_pidx_bound(g, nbrs@[j]);
                        if pidx(g, nbrs@[j]) != pidx(g, q) {
                            assert(marked(g, seen@, nbrs@[j]) == marked(
                                g,
                                seen_before,
                                nbrs@[j],
                            ));
                        }
                    }
                    assert(marked(g, seen@, q));
                }
            } else {
                proof {
                    assert(color_at(g, q) == c ==> marked(g, seen@, q));
                }
            }
            k += 1;
        }
        proof {
            assert forall|q: Point|
                #![trigger adj4(p, q)]
                adj4(p, q) && grid_in(g, q) && color_at(g, q) == c implies marked(
                g,
                seen@,
                q,
            ) by {
                assert(nbrs@.contains(q));
                let j = choose|j: int| 0 <= j < nbrs@.len() && nbrs@[j] == q;
            }
        }
    }

    /// The set of cells joined to `(y, x)` by equal-colored 4-adjacent
    /// steps, as a duplicate-free vector.
    #[verifier::rlimit(100)]
    #[verifier::spinoff_prover]
    pub fn region_of(&self, y: u8, x: u8) -> (r: Vec<Point>)
        requires
            self.wf(),
            grid_in(self@, (y, x)),
        ensures
            forall|p: Point| r@.contains(p) <==> connected(self@, (y, x), p),
            r@.no_duplicates(),
    {
        let ghost g = self@;
        let ghost start: Point = (y, x);
        let height = self.height();
        let width = self.width();
        assert(self@[y as int] == self.grid@[y as int]@);
        let c = self.grid[y as usize][x as usize];
        proof {
            assert(height * width <= 65536) by (nonlinear_arith)
                requires
                    height <= 256,
                    width <= 256,
            {}
        }
        let total = height * width;
        let mut seen: Vec<bool> = Vec::new();
        let mut i: usize = 0;
        while i < total
            invariant
                seen@.len() == i,
                i <= total,
                forall|k: int| 0 <= k < i ==> !(#[trigger] seen@[k]),
            decreases total - i,
        {
            seen.push(false);
            i += 1;
        }
        let mut out: Vec<Point> = Vec::new();
        let mut stack: Vec<Point> = Vec::new();
        let ghost seen0 = seen@;
        stack.push((y, x));
        proof {
            lemma_pidx_bound(g, start);
        }
        seen.set((y as usize) * width + (x as usize), true);
        proof {
            lemma_connected_refl(g, start);
            lemma_count_all_false(seen0);
            lemma_count_trues_update(seen0, pidx(g, start));
            lemma_count_trues_le(seen@);
            assert forall|pt: Point|
                grid_in(g, pt) implies (#[trigger] marked(g, seen@, pt) <==> (out@.contains(pt)
                || stack@.contains(pt))) by {
                lemma_pidx_bound(g, pt);
                if pidx(g, pt) == pidx(g, start) {
                    lemma_pidx_injective(g, pt, start);
                }
            }
        }
        while stack.len() > 0
            invariant
                self.wf(),
                g == self@,
                start == (y, x),
                grid_in(g, start),
                height == grid_height(g),
                width == grid_width(g),
                c == color_at(g, start),
                seen@.len() == height * width,
                count_trues(seen@) <= seen@.len(),
                forall|pt: Point|
                    grid_in(g, pt) ==> (#[trigger] marked(g, seen@, pt) <==> (out@.contains(pt)
                        || stack@.contains(pt))),
                forall|pt: Point|
                    #[trigger] out@.contains(pt) ==> grid_in(g, pt) && color_at(g, pt) == c
                        && connected(g, start, pt),
                forall|pt: Point|
                    #[trigger] stack@.contains(pt) ==> grid_in(g, pt) && color_at(g, pt) == c
                        && connected(g, start, pt),
                out@.no_duplicates(),
                stack@.no_duplicates(),
                forall|pt: Point| !(#[trigger] out@.contains(pt) && stack@.contains(pt)),
                forall|pt: Point, q: Point|
                    #![trigger out@.contains(pt), adj4(pt, q)]
                    out@.contains(pt) && adj4(pt, q) && grid_in(g, q) && color_at(g, q) == c
                        ==> marked(g, seen@, q),
                marked(g, seen@, start),
            decreases 5 * (seen@.len() - count_trues(seen@)) + stack@.len(),
        {
            let ghost stack_before = stack@;
            let ghost seen_entry = seen@;
            let p = stack.pop().unwrap();
            proof {
                assert(stack_before.contains(stack_before.last()));
                lemma_no_dup_drop_last(stack_before);
                assert forall|pt: Point| #[trigger]
                    stack_before.contains(pt) implies (stack@.contains(pt) || pt == p) by {
                    lemma_drop_last_contains(stack_before, pt);
                }
                assert forall|pt: Point| #[trigger]
                    stack@.contains(pt) implies stack_before.contains(pt) by {
                    lemma_drop_last_contains(stack_before, pt);
                }
                assert forall|pt: Point|
                    grid_in(g, pt) implies (#[trigger] marked(g, seen@, pt) <==> (
                out@.contains(pt) || stack@.contains(pt) || pt == p)) by {
                    lemma_drop_last_contains(stack_before, pt);
                }
                assert(!out@.contains(p));
                assert(marked(g, seen@, p));
            }
            self.visit_neighbours(c, p, &mut seen, &mut stack, &out, Ghost(start));
            proof {
                lemma_push_no_dup(out@, p);
            }
            out.push(p);
            proof {
                assert forall|pt: Point, q: Point|
                    #![trigger out@.contains(pt), adj4(pt, q)]
                    out@.contains(pt) && adj4(pt, q) && grid_in(g, q) && color_at(g, q)
                    == c implies marked(g, seen@, q) by {
                    if pt != p {
                        assert(marked(g, seen_entry, q));
                    }
                }
            }
        }
        proof {
            assert forall|pz: Point| connected(g, start, pz) implies out@.contains(pz) by {
                let s = Set::new(|pt: Point| out@.contains(pt));
                assert forall|u: Point, v: Point|
                    #![trigger s.contains(u), adj4(u, v)]
                    s.contains(u) && adj4(u, v) && grid_in(g, v) && color_at(g, v)
                    == c implies s.contains(v) by {
                    assert(out@.contains(u));
                    assert(marked(g, seen@, v));
                }
                assert(closed_region(g, s, c));
                assert(s.contains(start));
                lemma_closed_connected(g, s, start, pz);
            }
        }
        out
    }

    /// Recolors the whole region of the origin cell `(0, 0)` with the given
    /// color; every cell outside that region keeps its color.
    #[verifier::rlimit(100)]
    #[verifier::spinoff_prover]
    pub fn apply_color(&mut self, color: Color)
        requires
            old(self).wf(),
        ensures
            final(self).wf(),
            grid_height(final(self)@) == grid_height(old(self)@),
            grid_width(final(self)@) == grid_width(old(self)@),
            forall|p: Point|
                grid_in(old(self)@, p) ==> color_at(final(self)@, p) == (if connected(
                    old(self)@,
                    (0u8, 0u8),
                    p,
                ) {
                    color
                } else {
                    color_at(old(self)@, p)
                }),
    {
        let ghost g0 = self@;
        let ghost origin: Point = (0u8, 0u8);
        let height = self.height();
        let width = self.width();
        let region = self.region_of(0, 0);
        proof {
            assert forall|p: Point| #[trigger] region@.contains(p) implies grid_in(g0, p) by {
                lemma_connected_color(g0, origin, p);
            }
            assert(height * width <= 65536) by (nonlinear_arith)
                requires
                    height <= 256,
                    width <= 256,
            {}
        }
        let total = height * width;
        let mut mask: Vec<bool> = Vec::new();
        let mut i: usize = 0;
        while i < total
            invariant
                mask@.len() == i,
                i <= total,
                forall|k: int| 0 <= k < i ==> !(#[trigger] mask@[k]),
            decreases total - i,
        {
            mask.push(false);
            i += 1;
        }
        proof {
            assert forall|p: Point| #[trigger] region@.contains(p) implies grid_in(g0, p) by {
                lemma_connected_color(g0, origin, p);
            }
            assert forall|p: Point| grid_in(g0, p) implies !marked(g0, mask@, p) by {
                lemma_pidx_bound(g0, p);
            }
        }
        let mut i: usize = 0;
        while i < region.len()
            invariant
                self.wf(),
                g0 == self@,
                origin == (0u8, 0u8),
                height == grid_height(g0),
                width == grid_width(g0),
                height * width <= 65536,
                i <= region@.len(),
                mask@.len() == height * width,
                forall|p: Point|
                    #![trigger region@.contains(p)]
                    region@.contains(p) <==> connected(g0, origin, p),
                forall|p: Point| #[trigger] region@.contains(p) ==> grid_in(g0, p),
                forall|p: Point|
                    grid_in(g0, p) ==> (#[trigger] marked(g0, mask@, p) <==> exists|j: int|
                        0 <= j < i && region@[j] == p),
            decreases region@.len() - i,
        {
            let p = region[i];
            proof {
                assert(region@.contains(region@[i as int]));
                lemma_pidx_bound(g0, p);
            }
            let ghost mask_before = mask@;
            mask.set((p.0 as usize) * width + (p.1 as usize), true);
            proof {
                assert forall|pt: Point|
                    grid_in(g0, pt) implies (#[trigger] marked(g0, mask@, pt) <==> exists|j: int|
                    0 <= j < i + 1 && region@[j] == pt) by {
                    lemma_pidx_bound(g0, pt);
                    if pidx(g0, pt) == pidx(g0, p) {
                        lemma_pidx_injective(g0, pt, p);
                        assert(region@[i as int] == pt);
                    } else {
                        assert(marked(g0, mask@, pt) == marked(g0, mask_before, pt));
                    }
                }
            }
            i += 1;
        }
        proof {
            assert forall|p: Point|
                grid_in(g0, p) implies (#[trigger] marked(g0, mask@, p) <==> connected(
                g0,
                origin,
                p,
            )) by {
                if exists|j: int| 0 <= j < region@.len() && region@[j] == p {
                    let j = choose|j: int| 0 <= j < region@.len() && region@[j] == p;
                    assert(region@.contains(p));
                }
                if region@.contains(p) {
                    let j = choose|j: int| 0 <= j < region@.len() && region@[j] == p;
                }
            }
        }
        let mut newgrid: Vec<Vec<Color>> = Vec::new();
        let mut y: usize = 0;
        while y < height
            invariant
                self.wf(),
                g0 == self@,
                height == grid_height(g0),
                width == grid_width(g0),
                y <= height,
                height * width <= 65536,
                mask@.len() == height * width,
                forall|p: Point|
                    grid_in(g0, p) ==> (#[trigger] marked(g0, mask@, p) <==> connected(
                        g0,
                        (0u8, 0u8),
                        p,
                    )),
                newgrid@.len() == y,
                forall|yy: int| 0 <= yy < y ==> (#[trigger] newgrid@[yy]@.len()) == width,
                forall|p: Point|
                    grid_in(g0, p) && (p.0 as int) < y ==> newgrid@[p.0 as int]@[p.1 as int] == (
                    if marked(g0, mask@, p) {
                        color
                    } else {
                        color_at(g0, p)
                    }),
            decreases height - y,
        {
            let mut row: Vec<Color> = Vec::new();
            let mut x: usize = 0;
            while x < width
                invariant
                    self.wf(),
                    g0 == self@,
                    height == grid_height(g0),
                    width == grid_width(g0),
                    y < height,
                    x <= width,
                    height * width <= 65536,
                    mask@.len() == height * width,
                    row@.len() == x,
                    forall|p: Point|
                        grid_in(g0, p) && p.0 == y && (p.1 as int) < x ==> row@[p.1 as int] == (
                        if marked(g0, mask@, p) {
                            color
                        } else {
                            color_at(g0, p)
                        }),
                decreases width - x,
            {
                proof {
                    lemma_pidx_bound(g0, (y as u8, x as u8));
                }
                assert(self@[y as int] == self.grid@[y as int]@);
                let cell = if mask[y * width + x] {
                    color
                } else {
                    self.grid[y][x]
                };
                row.push(cell);
                x += 1;
            }
            newgrid.push(row);
            y += 1;
        }
        self.grid = newgrid;
        proof {
            assert(self@.len() == height);
            assert forall|yy: int| 0 <= yy < height implies (#[trigger] self@[yy].len())
                == width by {
                assert(self@[yy] == self.grid@[yy]@);
            }
            assert forall|p: Point| grid_in(g0, p) implies color_at(self@, p) == (if connected(
                g0,
                origin,
                p,
            ) {
                color
            } else {
                color_at(g0, p)
            }) by {
                assert(self@[p.0 as int] == self.grid@[p.0 as int]@);
            }
        }
    }

    /// Reads a problem from text lines of decimal digits, one line per grid
    /// row.  Returns `None` when the lines do not encode a grid: no line, an
    /// empty line, unequal line lengths, more than 256 lines or columns, a
    /// character that is no digit, or no cell of color `0`.
    #[verifier::rlimit(100)]
    #[verifier::spinoff_prover]
    pub fn from_lines(lines: &Vec<String>) -> (r: Option<Problem>)
        ensures
            r.is_some() <==> lines_valid(lines@.map_values(|s: String| s@)),
            r.is_some() ==> r.unwrap().wf() && r.unwrap()@ == grid_of_lines(
                lines@.map_values(|s: String| s@),
            ),
    {
        let ghost lv = lines@.map_values(|s: String| s@);
        let n = lines.len();
        if n == 0 || n > 256 {
            return None;
        }
        let width0 = lines[0].as_str().unicode_len();
        if width0 == 0 || width0 > 256 {
            return None;
        }
        let mut grid: Vec<Vec<Color>> = Vec::new();
        let mut found0 = false;
        let mut i: usize = 0;
        while i < n
            invariant
                lv == lines@.map_values(|s: String| s@),
                n == lines@.len(),
                0 < n <= 256,
                0 < width0 <= 256,
                width0 == lv[0].len(),
                i <= n,
                grid@.len() == i,
                forall|ii: int| 0 <= ii < i ==> #[trigger] lv[ii].len() == width0,
                forall|ii: int|
                    0 <= ii < i ==> (#[trigger] grid@[ii]@) == lv[ii].map_values(
                        |ch: char| char_digit(ch) as u8,
                    ),
                forall|ii: int, jj: int|
                    0 <= ii < i && 0 <= jj < lv[ii].len() ==> is_digit_char(
                        #[trigger] lv[ii][jj],
                    ),
                found0 <==> (exists|a: int, b: int|
                    0 <= a < i && 0 <= b < lv[a].len() && char_digit(#[trigger] lv[a][b]) == 0),
            decreases n - i,
        {
            let s = lines[i].as_str();
            proof {
                assert(s@ == lv[i as int]);
            }
            if s.unicode_len() != width0 {
                proof {
                    assert(lv[i as int].len() != lv[0].len());
                }
                return None;
            }
            let mut row: Vec<Color> = Vec::new();
            let mut j: usize = 0;
            while j < width0
                invariant
                    lv == lines@.map_values(|s2: String| s2@),
                    n == lines@.len(),
                    0 < n <= 256,
                    0 < width0 <= 256,
                    width0 == lv[0].len(),
                    i < n,
                    s@ == lv[i as int],
                    lv[i as int].len() == width0,
                    j <= width0,
                    row@.len() == j,
                    forall|jj: int|
                        0 <= jj < j ==> (#[trigger] row@[jj]) == char_digit(
                            lv[i as int][jj],
                        ) as u8,
                    forall|jj: int| 0 <= jj < j ==> is_digit_char(#[trigger] lv[i as int][jj]),
                    found0 <==> (exists|a: int, b: int|
                        #![trigger lv[a][b]]
                        0 <= a < lv.len() && 0 <= b < lv[a].len() && (a < i || (a == i && b < j))
                            && char_digit(lv[a][b]) == 0),
                decreases width0 - j,
            {
                let ch = s.get_char(j);
                let v = ch as u32;
                if v < 48 || v > 57 {
                    proof {
                        assert(!is_digit_char(lv[i as int][j as int]));
                    }
                    return None;
                }
                let ghost found0_before = found0;
                if v == 48 {
                    found0 = true;
                }
                proof {
                    if found0 {
                        if v == 48 {
                            assert(char_digit(lv[i as int][j as int]) == 0);
                        }
                    }
                    assert forall|a: int, b: int|
                        #![trigger lv[a][b]]
                        0 <= a < lv.len() && 0 <= b < lv[a].len() && (a < i || (a == i && b < j
                            + 1)) && char_digit(lv[a][b]) == 0 implies found0 by {
                        if a < i || (a == i && b < j) {
                            assert(found0_before);
                        }
                    }
                }
                row.push((v - 48) as u8);
                j += 1;
            }
            grid.push(row);
            proof {
                assert(grid@.last()@ =~= lv[i as int].map_values(|ch: char| char_digit(ch) as u8));
            }
            i += 1;
        }
        if !found0 {
            proof {
                assert(!lines_valid(lv));
            }
            return None;
        }
        let result = Problem { grid };
        proof {
            assert(lines_valid(lv));
            assert forall|ii: int| 0 <= ii < n implies (#[trigger] result@[ii])
                == grid_of_lines(lv)[ii] by {
                assert(result@[ii] == grid@[ii]@);
            }
            assert(result@ =~= grid_of_lines(lv));
            assert(grid_wf(result@));
        }
        Some(result)
    }
}

} // verus!
