//! Points on the grid and their 4-neighbourhoods.

use vstd::prelude::*;

verus! {

broadcast use vstd::seq_lib::lemma_seq_contains_after_push;

/// A point on a two dimensional grid, as `(row, column)`.
pub type Point = (u8, u8);

/// Whether `p` lies on a grid of the given height and width.
pub open spec fn in_bounds(p: Point, height: int, width: int) -> bool {
    (p.0 as int) < height && (p.1 as int) < width
}

/// Whether `p` and `q` are 4-adjacent: they share a row and their columns
/// differ by one, or they share a column and their rows differ by one.
pub open spec fn adj4(p: Point, q: Point) -> bool {
    ||| (p.0 == q.0 && (p.1 + 1 == q.1 || q.1 + 1 == p.1))
    ||| (p.1 == q.1 && (p.0 + 1 == q.0 || q.0 + 1 == p.0))
}

/// A sequence with no duplicates stays duplicate-free when an element not
/// yet in it is pushed.
pub proof fn lemma_push_no_dup<A>(s: Seq<A>, x: A)
    requires
        s.no_duplicates(),
        !s.contains(x),
    ensures
        s.push(x).no_duplicates(),
{
    let t = s.push(x);
    assert forall|i: int, j: int|
        0 <= i < t.len() && 0 <= j < t.len() && i != j implies t[i] != t[j] by {
        if i < s.len() && j < s.len() {
            assert(s[i] != s[j]);
        } else if i < s.len() && j == s.len() {
            if s[i] == x {
                assert(s.contains(x));
            }
        } else if j < s.len() && i == s.len() {
            if s[j] == x {
                assert(s.contains(x));
            }
        }
    }
}

/// What a sequence holds, after its last element is dropped.
pub proof fn lemma_drop_last_contains<A>(s: Seq<A>, x: A)
    requires
        s.len() > 0,
    ensures
        s.contains(x) <==> (s.drop_last().contains(x) || s.last() == x),
{
    if s.contains(x) {
        let k = choose|k: int| 0 <= k < s.len() && s[k] == x;
        if k < s.len() - 1 {
            assert(s.drop_last()[k] == x);
        }
    }
    if s.drop_last().contains(x) {
        let k = choose|k: int| 0 <= k < s.drop_last().len() && s.drop_last()[k] == x;
        assert(s[k] == x);
    }
}

/// Dropping the last element of a duplicate-free sequence keeps it
/// duplicate-free, and removes its last element.
pub proof fn lemma_no_dup_drop_last<A>(s: Seq<A>)
    requires
        s.len() > 0,
        s.no_duplicates(),
    ensures
        s.drop_last().no_duplicates(),
        !s.drop_last().contains(s.last()),
{
    if s.drop_last().contains(s.last()) {
        let k = choose|k: int| 0 <= k < s.drop_last().len() && s.drop_last()[k] == s.last();
        assert(s[k] == s[s.len() - 1]);
    }
}

/// 4-adjacency does not depend on the order of the two points.
pub proof fn lemma_adj4_symmetric(p: Point, q: Point)
    ensures
        adj4(p, q) == adj4(q, p),
{
}

/// All coordinates 4-adjacent to `(y, x)` that lie on a grid of the given
/// height and width.
pub fn neighbours(y: u8, x: u8, height: usize, width: usize) -> (r: Vec<Point>)
    requires
        height <= 256,
        width <= 256,
        (y as int) < height,
        (x as int) < width,
    ensures
        forall|p: Point|
            #![trigger r@.contains(p)]
            r@.contains(p) <==> (adj4((y, x), p) && in_bounds(p, height as int, width as int)),
        r@.no_duplicates(),
{
    let mut r: Vec<Point> = Vec::new();
    if (x as usize) + 1 < width {
        r.push((y, x + 1));
    }
    assert(forall|k: int|
        0 <= k < r@.len() ==> adj4((y, x), #[trigger] r@[k]) && in_bounds(
            r@[k],
            height as int,
            width as int,
        ));
    if x > 0 {
        r.push((y, x - 1));
    }
    assert(forall|k: int|
        0 <= k < r@.len() ==> adj4((y, x), #[trigger] r@[k]) && in_bounds(
            r@[k],
            height as int,
            width as int,
        ));
    if (y as usize) + 1 < height {
        r.push((y + 1, x));
    }
    assert(forall|k: int|
        0 <= k < r@.len() ==> adj4((y, x), #[trigger] r@[k]) && in_bounds(
            r@[k],
            height as int,
            width as int,
        ));
    if y > 0 {
        r.push((y - 1, x));
    }
    assert(forall|k: int|
        0 <= k < r@.len() ==> adj4((y, x), #[trigger] r@[k]) && in_bounds(
            r@[k],
            height as int,
            width as int,
        ));
    proof {
        assert((x as int) + 1 < width ==> r@.contains((y, (x + 1) as u8)));
        assert(x > 0 ==> r@.contains((y, (x - 1) as u8)));
        assert((y as int) + 1 < height ==> r@.contains(((y + 1) as u8, x)));
        assert(y > 0 ==> r@.contains(((y - 1) as u8, x)));
        assert forall|p: Point|
            adj4((y, x), p) && in_bounds(p, height as int, width as int) implies r@.contains(
            p,
        ) by {
            if p.0 == y && p.1 == x + 1 {
                assert(p == (y, (x + 1) as u8));
            } else if p.0 == y && p.1 + 1 == x {
                assert(p == (y, (x - 1) as u8));
            } else if p.1 == x && p.0 == y + 1 {
                assert(p == ((y + 1) as u8, x));
            } else {
                assert(p.1 == x && p.0 + 1 == y);
                assert(p == ((y - 1) as u8, x));
            }
        }
        assert forall|p: Point|
            r@.contains(p) implies adj4((y, x), p) && in_bounds(p, height as int, width as int) by {
            let k = choose|k: int| 0 <= k < r@.len() && r@[k] == p;
            assert(r@[k] == p);
        }
    }
    r
}

} // verus!
