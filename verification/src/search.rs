//! Search strategies over solve horizons: the solve actions, the closed
//! form bound on the solution length, and the binary search state.

use vstd::prelude::*;

use crate::solution::Solution;

verus! {

/// Mode of finding an (optimal) solution.
#[derive(Clone, Debug)]
pub enum Action {
    /// Let the engine's optimizer find a minimal solution, at most
    /// `upper_bound` moves long when one is given.
    Opt { upper_bound: Option<usize> },
    /// Find a minimal solution by binary search in reasonable bounds.
    Min,
    /// Find a minimal solution by binary search in the given bounds.
    Search { lower_bound: usize, upper_bound: usize },
    /// Find a solution with the exact given size.
    Exact { size: usize },
    /// Find a solution with a reasonably large size.
    Solve,
}

/// The search bounds that an action asks for, with `lo` and `hi` as the
/// fallback values.
pub open spec fn bounds_of(action: Action, lo: usize, hi: usize) -> (usize, usize) {
    match action {
        Action::Opt { upper_bound: Option::Some(u) } => (u, u),
        Action::Opt { upper_bound: Option::None } => (hi, hi),
        Action::Min => (lo, hi),
        Action::Search { lower_bound, upper_bound } => (lower_bound, upper_bound),
        Action::Exact { size } => (size, size),
        Action::Solve => (hi, hi),
    }
}

impl Action {
    /// Whether the action solves through the engine's optimizer.
    pub fn use_optimizer(&self) -> (r: bool)
        ensures
            r <==> (self matches Action::Opt { .. }),
    {
        match self {
            Action::Opt { .. } => true,
            _ => false,
        }
    }

    /// The search bounds of this action, with the fallback values `lo` and
    /// `hi`.
    pub fn get_bounds(&self, lo: usize, hi: usize) -> (r: (usize, usize))
        ensures
            r == bounds_of(*self, lo, hi),
    {
        match self {
            Action::Opt { upper_bound: Some(upper_bound) } => (*upper_bound, *upper_bound),
            Action::Opt { upper_bound: None } => (hi, hi),
            Action::Min => (lo, hi),
            Action::Search { lower_bound, upper_bound } => (*lower_bound, *upper_bound),
            Action::Exact { size } => (*size, *size),
            Action::Solve => (hi, hi),
        }
    }
}

/// Whether `k` is the integer square root of `x`, rounded up: the least
/// `k` whose square reaches `x`.
pub open spec fn is_ceil_sqrt(x: int, k: int) -> bool {
    &&& k >= 0
    &&& k * k >= x
    &&& (k == 0 || (k - 1) * (k - 1) < x)
}

/// The integer square root of `x`, rounded up.
pub fn ceil_sqrt(x: usize) -> (k: usize)
    requires
        x <= 65536,
    ensures
        is_ceil_sqrt(x as int, k as int),
        k <= 256,
{
    let mut k: usize = 0;
    loop
        invariant_except_break
            x <= 65536,
            k <= 256,
            k == 0 || (k - 1) * (k - 1) < x,
        ensures
            is_ceil_sqrt(x as int, k as int),
            k <= 256,
        decreases 257 - k,
    {
        proof {
            assert(k * k <= 65536) by (nonlinear_arith)
                requires
                    0 <= k <= 256,
            {}
        }
        if k * k >= x {
            break ;
        }
        proof {
            assert(k < 256) by (nonlinear_arith)
                requires
                    0 <= k <= 256,
                    k * k < x,
                    x <= 65536,
            {}
        }
        k += 1;
    }
    k
}

/// The rounded-up square root is one value: two numbers fitting the
/// description are equal.
pub proof fn lemma_ceil_sqrt_unique(x: int, k1: int, k2: int)
    requires
        is_ceil_sqrt(x, k1),
        is_ceil_sqrt(x, k2),
    ensures
        k1 == k2,
{
    if k1 < k2 {
        assert(k1 * k1 <= (k2 - 1) * (k2 - 1)) by (nonlinear_arith)
            requires
                0 <= k1 <= k2 - 1,
        {}
    }
    if k2 < k1 {
        assert(k2 * k2 <= (k1 - 1) * (k1 - 1)) by (nonlinear_arith)
            requires
                0 <= k2 <= k1 - 1,
        {}
    }
}

/// The lesser of two numbers.
pub open spec fn min2(a: int, b: int) -> int {
    if a <= b {
        a
    } else {
        b
    }
}

/// An upper bound for the length of a minimal solution, as the least of
/// three closed-form bounds over the cluster count, the grid height `n`
/// and the color count `c`: the cluster count itself, `c * (n - 1)`, and
/// `2 * n + c + ceil(sqrt(2 * c)) * n`.
pub fn max_moves(num_clusters: usize, height: usize, num_colors: usize) -> (r: usize)
    requires
        1 <= height <= 256,
        1 <= num_colors <= 256,
        num_clusters <= 65536,
    ensures
        exists|k: int|
            #[trigger] is_ceil_sqrt(2 * (num_colors as int), k) && r == min2(
                num_clusters as int,
                min2(
                    (num_colors as int) * ((height as int) - 1),
                    2 * (height as int) + (num_colors as int) + k * (height as int),
                ),
            ),
{
    let k = ceil_sqrt(2 * num_colors);
    proof {
        assert(num_colors * (height - 1) <= 65536) by (nonlinear_arith)
            requires
                1 <= height <= 256,
                1 <= num_colors <= 256,
        {}
        assert(k <= 23) by (nonlinear_arith)
            requires
                is_ceil_sqrt(2 * (num_colors as int), k as int),
                num_colors <= 256,
        {}
        assert(k * height <= 23 * 256) by (nonlinear_arith)
            requires
                0 <= k <= 23,
                height <= 256,
        {}
    }
    let b1 = num_clusters;
    let b2 = num_colors * (height - 1);
    let b3 = 2 * height + num_colors + k * height;
    let m = if b2 <= b3 {
        b2
    } else {
        b3
    };
    let r = if b1 <= m {
        b1
    } else {
        m
    };
    proof {
        assert(is_ceil_sqrt(2 * (num_colors as int), k as int));
    }
    r
}

/// The verdict of one solve attempt.
#[derive(Clone, Copy, PartialEq, Eq, Structural, Debug)]
pub enum Verdict {
    /// The assertions are satisfiable: a solution of the attempted horizon
    /// exists.
    Sat,
    /// The assertions are unsatisfiable: no solution of the attempted
    /// horizon exists.
    Unsat,
    /// The engine could not decide.
    Unknown,
}

/// The state of a binary search for the least feasible horizon inside
/// `[lo, hi]`.  `best` holds the last solution a satisfiable attempt
/// returned; `done` says that the interval is exhausted.
pub struct SearchState {
    pub lo: usize,
    pub hi: usize,
    pub done: bool,
    pub best: Option<Solution>,
}

impl SearchState {
    /// Starts a search on the interval `[lo, hi]`.
    pub fn init(lo: usize, hi: usize) -> (s: SearchState)
        ensures
            s.lo == lo,
            s.hi == hi,
            s.done == (lo > hi),
            s.best is None,
    {
        SearchState { lo, hi, done: lo > hi, best: None }
    }

    /// The horizon to attempt next: the middle of the interval.
    pub fn target(&self) -> (t: usize)
        requires
            !self.done,
            self.lo <= self.hi,
            self.lo + self.hi <= usize::MAX,
        ensures
            t == (self.lo + self.hi) / 2,
            self.lo <= t <= self.hi,
    {
        (self.lo + self.hi) / 2
    }

    /// Narrows the interval by the verdict of an attempt at horizon `t`:
    /// on `Sat` the found solution is recorded and the search continues
    /// below `t`; on `Unsat` or `Unknown` it continues above `t`.
    pub fn step(self, t: usize, verdict: Verdict, found: Option<Solution>) -> (s: SearchState)
        requires
            !self.done,
            self.lo <= t <= self.hi,
            self.hi < usize::MAX,
        ensures
            (verdict is Sat) ==> s.best == found && s.lo == self.lo && (if t == 0 {
                s.done && s.hi == 0
            } else {
                s.hi == t - 1 && s.done == (self.lo + 1 > t)
            }),
            !(verdict is Sat) ==> s.best == self.best && s.hi == self.hi && s.lo == t + 1
                && s.done == (t + 1 > self.hi),
            !s.done ==> s.hi - s.lo < self.hi - self.lo,
    {
        match verdict {
            Verdict::Sat => {
                if t == 0 {
                    SearchState { lo: self.lo, hi: 0, done: true, best: found }
                } else {
                    SearchState { lo: self.lo, hi: t - 1, done: self.lo > t - 1, best: found }
                }
            },
            _ => SearchState { lo: t + 1, hi: self.hi, done: t + 1 > self.hi, best: self.best },
        }
    }
}

} // verus!
