//! The temporal constraint model of one solve attempt.
//!
//! For a horizon `t_max` the model ranges over `t_max` color-choice
//! variables `color[t]` and `(t_max + 1)` flooded-state variables
//! `flood[i][t]` per cluster `i`.  [`Assertion`] names each assertion the
//! model emits, [`assertion_holds`] gives its meaning over a concrete
//! assignment, and [`build_model`] emits exactly the assertion set of the
//! encoding.  [`check_assignment`] evaluates a whole model over a concrete
//! assignment, so a caller can confirm an external engine's answer.

use vstd::prelude::*;

use crate::cluster::ClusterGraph;

verus! {

broadcast use vstd::seq_lib::lemma_seq_contains_after_push;

/// One assertion of the constraint model at horizon `t_max`.
///
/// `i` names a cluster, `t` a time step.
#[derive(Clone, Copy, Debug)]
pub enum Assertion {
    /// `0 <= color[t] < num_colors`, for `t < t_max`.
    ColorDomain { t: usize },
    /// `color[t] != color[t + 1]`, for `t + 1 < t_max`.
    ColorsDiffer { t: usize },
    /// `flood[i][t]`: emitted for the origin cluster at every time, and
    /// for every cluster at time `t_max`.
    Flooded { i: usize, t: usize },
    /// `!flood[i][0]`, for every cluster but the origin.
    NotFloodedAtStart { i: usize },
    /// `flood[i][t] ==> flood[i][t + 1]`, for every non-origin cluster.
    Monotone { i: usize, t: usize },
    /// If a neighbour of `i` is flooded at `t` and `color[t]` is `i`'s
    /// color, then `flood[i][t + 1]`; for every non-origin cluster.
    Grows { i: usize, t: usize },
    /// If `i` is not flooded at `t`, and no neighbour is flooded at `t` or
    /// `color[t]` is not `i`'s color, then `!flood[i][t + 1]`; for every
    /// non-origin cluster.
    Stalls { i: usize, t: usize },
    /// Not all clusters are flooded at `t`: emitted at `t_max - 1` when no
    /// optimization objective makes `t_max` tight.
    NotAllFlooded { t: usize },
}

/// The color of cluster `i`.
pub open spec fn cluster_color(g: ClusterGraph, i: int) -> u8 {
    g.clusters@[i].color
}

/// Whether cluster `j` is in cluster `i`'s adjacency list.
pub open spec fn nb_contains(g: ClusterGraph, i: int, j: usize) -> bool {
    g.neighbours@[i]@.contains(j)
}

/// Whether some neighbour of cluster `i` is flooded at time `t`.
pub open spec fn neighbour_flooded(
    g: ClusterGraph,
    floods: Seq<Seq<bool>>,
    i: int,
    t: int,
) -> bool {
    exists|j: usize| #[trigger] nb_contains(g, i, j) && floods[j as int][t]
}

/// Whether every cluster is flooded at time `t`.
pub open spec fn all_flooded(floods: Seq<Seq<bool>>, t: int) -> bool {
    forall|i: int| 0 <= i < floods.len() ==> #[trigger] floods[i][t]
}

/// What one assertion means over a concrete assignment: `colors[t]` is the
/// value of `color[t]`, and `floods[i][t]` the value of `flood[i][t]`.
pub open spec fn assertion_holds(
    a: Assertion,
    g: ClusterGraph,
    num_colors: int,
    colors: Seq<u8>,
    floods: Seq<Seq<bool>>,
) -> bool {
    match a {
        Assertion::ColorDomain { t } => (colors[t as int] as int) < num_colors,
        Assertion::ColorsDiffer { t } => colors[t as int] != colors[t as int + 1],
        Assertion::Flooded { i, t } => floods[i as int][t as int],
        Assertion::NotFloodedAtStart { i } => !floods[i as int][0],
        Assertion::Monotone { i, t } => floods[i as int][t as int] ==> floods[i as int][t as int
            + 1],
        Assertion::Grows { i, t } => (neighbour_flooded(g, floods, i as int, t as int) && colors[t as int]
            == cluster_color(g, i as int)) ==> floods[i as int][t as int + 1],
        Assertion::Stalls { i, t } => (!floods[i as int][t as int] && (!neighbour_flooded(
            g,
            floods,
            i as int,
            t as int,
        ) || colors[t as int] != cluster_color(g, i as int))) ==> !floods[i as int][t as int + 1],
        Assertion::NotAllFlooded { t } => !all_flooded(floods, t as int),
    }
}

/// Which assertions the model at horizon `t_max` holds, over `n` clusters
/// with origin cluster `origin`.
pub open spec fn in_model(a: Assertion, n: int, origin: int, t_max: int, optimize: bool) -> bool {
    match a {
        Assertion::ColorDomain { t } => (t as int) < t_max,
        Assertion::ColorsDiffer { t } => (t as int) + 1 < t_max,
        Assertion::Flooded { i, t } => (i as int) < n && (((i as int) == origin && (t as int)
            <= t_max) || (t as int) == t_max),
        Assertion::NotFloodedAtStart { i } => (i as int) < n && (i as int) != origin,
        Assertion::Monotone { i, t } => (i as int) < n && (i as int) != origin && (t as int)
            < t_max,
        Assertion::Grows { i, t } => (i as int) < n && (i as int) != origin && (t as int) < t_max,
        Assertion::Stalls { i, t } => (i as int) < n && (i as int) != origin && (t as int) < t_max,
        Assertion::NotAllFlooded { t } => !optimize && t_max >= 1 && (t as int) == t_max - 1,
    }
}

/// The constraint model of one solve attempt: the emitted assertions and
/// the parameters they were emitted for.
pub struct ConstraintModel {
    pub assertions: Vec<Assertion>,
    pub num_clusters: usize,
    pub num_colors: usize,
    pub t_max: usize,
    pub optimize: bool,
}

impl ConstraintModel {
    /// The model holds exactly the assertions of the encoding of `g` at
    /// horizon `t_max`.
    pub open spec fn complete(self, g: ClusterGraph) -> bool {
        &&& self.num_clusters == g.clusters@.len()
        &&& forall|a: Assertion|
            #![trigger self.assertions@.contains(a)]
            self.assertions@.contains(a) <==> in_model(
                a,
                g.clusters@.len() as int,
                g.origin as int,
                self.t_max as int,
                self.optimize,
            )
    }

    /// Whether the whole model holds over a concrete assignment.
    pub open spec fn satisfied_by(
        self,
        g: ClusterGraph,
        colors: Seq<u8>,
        floods: Seq<Seq<bool>>,
    ) -> bool {
        forall|a: Assertion|
            #![trigger self.assertions@.contains(a)]
            self.assertions@.contains(a) ==> assertion_holds(
                a,
                g,
                self.num_colors as int,
                colors,
                floods,
            )
    }
}

/// Appends `ColorDomain { t }` for every `t < t_max`.
fn push_color_domain(dst: &mut Vec<Assertion>, t_max: usize)
    ensures
        forall|a: Assertion|
            #![trigger final(dst)@.contains(a)]
            final(dst)@.contains(a) <==> (old(dst)@.contains(a) || (a matches Assertion::ColorDomain {
                t,
            } && (t as int) < t_max)),
{
    let mut t: usize = 0;
    while t < t_max
        invariant
            t <= t_max,
            forall|a: Assertion|
                #![trigger dst@.contains(a)]
                dst@.contains(a) <==> (old(dst)@.contains(a)
                    || (a matches Assertion::ColorDomain { t: t2 } && (t2 as int) < t)),
        decreases t_max - t,
    {
        dst.push(Assertion::ColorDomain { t });
        t += 1;
    }
}

/// Appends `ColorsDiffer { t }` for every `t + 1 < t_max`.
fn push_colors_differ(dst: &mut Vec<Assertion>, t_max: usize)
    ensures
        forall|a: Assertion|
            #![trigger final(dst)@.contains(a)]
            final(dst)@.contains(a) <==> (old(dst)@.contains(a)
                || (a matches Assertion::ColorsDiffer { t } && (t as int) + 1 < t_max)),
{
    if t_max == 0 {
        return ;
    }
    let mut t: usize = 0;
    while t + 1 < t_max
        invariant
            t < t_max,
            forall|a: Assertion|
                #![trigger dst@.contains(a)]
                dst@.contains(a) <==> (old(dst)@.contains(a)
                    || (a matches Assertion::ColorsDiffer { t: t2 } && (t2 as int) < t)),
        decreases t_max - t,
    {
        dst.push(Assertion::ColorsDiffer { t });
        t += 1;
    }
}

/// Appends `Flooded { origin, t }` for every `t <= t_max`.
fn push_origin_flooded(dst: &mut Vec<Assertion>, origin: usize, t_max: usize)
    requires
        t_max < usize::MAX,
    ensures
        forall|a: Assertion|
            #![trigger final(dst)@.contains(a)]
            final(dst)@.contains(a) <==> (old(dst)@.contains(a) || (a matches Assertion::Flooded {
                i,
                t,
            } && i == origin && (t as int) <= t_max)),
{
    let mut t: usize = 0;
    while t <= t_max
        invariant
            t_max < usize::MAX,
            t <= t_max + 1,
            forall|a: Assertion|
                #![trigger dst@.contains(a)]
                dst@.contains(a) <==> (old(dst)@.contains(a) || (a matches Assertion::Flooded {
                    i,
                    t: t2,
                } && i == origin && (t2 as int) < t)),
        decreases t_max + 1 - t,
    {
        dst.push(Assertion::Flooded { i: origin, t });
        t += 1;
    }
}

/// Appends `Flooded { i, t_max }` for every cluster `i`.
fn push_all_flooded_at_end(dst: &mut Vec<Assertion>, n: usize, t_max: usize)
    ensures
        forall|a: Assertion|
            #![trigger final(dst)@.contains(a)]
            final(dst)@.contains(a) <==> (old(dst)@.contains(a) || (a matches Assertion::Flooded {
                i,
                t,
            } && (i as int) < n && t == t_max)),
{
    let mut i: usize = 0;
    while i < n
        invariant
            i <= n,
            forall|a: Assertion|
                #![trigger dst@.contains(a)]
                dst@.contains(a) <==> (old(dst)@.contains(a) || (a matches Assertion::Flooded {
                    i: i2,
                    t,
                } && (i2 as int) < i && t == t_max)),
        decreases n - i,
    {
        dst.push(Assertion::Flooded { i, t: t_max });
        i += 1;
    }
}

/// Appends `NotFloodedAtStart { i }` for every cluster but the origin.
fn push_not_flooded_at_start(dst: &mut Vec<Assertion>, n: usize, origin: usize)
    ensures
        forall|a: Assertion|
            #![trigger final(dst)@.contains(a)]
            final(dst)@.contains(a) <==> (old(dst)@.contains(a)
                || (a matches Assertion::NotFloodedAtStart { i } && (i as int) < n && i != origin)),
{
    let mut i: usize = 0;
    while i < n
        invariant
            i <= n,
            forall|a: Assertion|
                #![trigger dst@.contains(a)]
                dst@.contains(a) <==> (old(dst)@.contains(a)
                    || (a matches Assertion::NotFloodedAtStart { i: i2 } && (i2 as int) < i && i2
                        != origin)),
        decreases n - i,
    {
        if i != origin {
            dst.push(Assertion::NotFloodedAtStart { i });
        }
        i += 1;
    }
}

/// Appends `Monotone`, `Grows` and `Stalls` for every non-origin cluster
/// `i` and every `t < t_max`.
fn push_dynamics(dst: &mut Vec<Assertion>, n: usize, origin: usize, t_max: usize)
    ensures
        forall|a: Assertion|
            #![trigger final(dst)@.contains(a)]
            final(dst)@.contains(a) <==> (old(dst)@.contains(a) || ((a matches Assertion::Monotone {
                i,
                t,
            } && (i as int) < n && i != origin && (t as int) < t_max)
                || (a matches Assertion::Grows { i, t } && (i as int) < n && i != origin && (
                t as int) < t_max)
                || (a matches Assertion::Stalls { i, t } && (i as int) < n && i != origin && (
                t as int) < t_max))),
{
    let mut i: usize = 0;
    while i < n
        invariant
            i <= n,
            forall|a: Assertion|
                #![trigger dst@.contains(a)]
                dst@.contains(a) <==> (old(dst)@.contains(a) || ((a
                    matches Assertion::Monotone { i: i2, t } && (i2 as int) < i && i2 != origin && (
                t as int) < t_max) || (a matches Assertion::Grows { i: i2, t } && (i2 as int) < i
                    && i2 != origin && (t as int) < t_max) || (a matches Assertion::Stalls {
                    i: i2,
                    t,
                } && (i2 as int) < i && i2 != origin && (t as int) < t_max))),
        decreases n - i,
    {
        if i != origin {
            let mut t: usize = 0;
            while t < t_max
                invariant
                    i < n,
                    i != origin,
                    t <= t_max,
                    forall|a: Assertion|
                        #![trigger dst@.contains(a)]
                        dst@.contains(a) <==> (old(dst)@.contains(a) || ((a
                            matches Assertion::Monotone { i: i2, t: t2 } && (i2 as int) < i && i2
                            != origin && (t2 as int) < t_max) || (a matches Assertion::Grows {
                            i: i2,
                            t: t2,
                        } && (i2 as int) < i && i2 != origin && (t2 as int) < t_max) || (a
                            matches Assertion::Stalls { i: i2, t: t2 } && (i2 as int) < i && i2
                            != origin && (t2 as int) < t_max) || (a matches Assertion::Monotone {
                            i: i2,
                            t: t2,
                        } && i2 == i && (t2 as int) < t) || (a matches Assertion::Grows {
                            i: i2,
                            t: t2,
                        } && i2 == i && (t2 as int) < t) || (a matches Assertion::Stalls {
                            i: i2,
                            t: t2,
                        } && i2 == i && (t2 as int) < t))),
                decreases t_max - t,
            {
                dst.push(Assertion::Monotone { i, t });
                dst.push(Assertion::Grows { i, t });
                dst.push(Assertion::Stalls { i, t });
                t += 1;
            }
        }
        i += 1;
    }
}

/// Builds the constraint model of the cluster graph `g` at horizon
/// `t_max`.  With `optimize` the caller maximizes the number of times at
/// which all clusters are flooded instead of pinning `t_max` as the exact
/// solution length, so the tightness assertion is left out.
pub fn build_model(g: &ClusterGraph, num_colors: usize, t_max: usize, optimize: bool) -> (m:
    ConstraintModel)
    requires
        t_max < usize::MAX,
        (g.origin as int) < g.clusters@.len(),
    ensures
        m.complete(*g),
        m.num_clusters == g.clusters@.len(),
        m.num_colors == num_colors,
        m.t_max == t_max,
        m.optimize == optimize,
{
    let n = g.len();
    let origin = g.origin;
    let mut assertions: Vec<Assertion> = Vec::new();
    push_color_domain(&mut assertions, t_max);
    push_colors_differ(&mut assertions, t_max);
    push_origin_flooded(&mut assertions, origin, t_max);
    push_all_flooded_at_end(&mut assertions, n, t_max);
    push_not_flooded_at_start(&mut assertions, n, origin);
    push_dynamics(&mut assertions, n, origin, t_max);
    if !optimize && t_max >= 1 {
        assertions.push(Assertion::NotAllFlooded { t: t_max - 1 });
    }
    let m = ConstraintModel { assertions, num_clusters: n, num_colors, t_max, optimize };
    proof {
        assert forall|a: Assertion| #[trigger]
            m.assertions@.contains(a) <==> in_model(
                a,
                g.clusters@.len() as int,
                g.origin as int,
                t_max as int,
                optimize,
            ) by {}
    }
    m
}

/// Every position in an adjacency list of `g` names an existing cluster.
pub open spec fn nb_in_range(g: ClusterGraph) -> bool {
    forall|i: int, j: usize|
        0 <= i < g.neighbours@.len() && #[trigger] g.neighbours@[i]@.contains(j) ==> (j as int)
            < g.clusters@.len()
}

/// The flood matrix of a vector of rows.
pub open spec fn floods_view(floods: Seq<Vec<bool>>) -> Seq<Seq<bool>> {
    floods.map_values(|row: Vec<bool>| row@)
}

/// Whether the indices of `a` stay inside a model over `n` clusters at
/// horizon `t_max`.
pub open spec fn assertion_in_range(a: Assertion, n: int, t_max: int) -> bool {
    match a {
        Assertion::ColorDomain { t } => (t as int) < t_max,
        Assertion::ColorsDiffer { t } => (t as int) + 1 < t_max,
        Assertion::Flooded { i, t } => (i as int) < n && (t as int) <= t_max,
        Assertion::NotFloodedAtStart { i } => (i as int) < n,
        Assertion::Monotone { i, t } => (i as int) < n && (t as int) < t_max,
        Assertion::Grows { i, t } => (i as int) < n && (t as int) < t_max,
        Assertion::Stalls { i, t } => (i as int) < n && (t as int) < t_max,
        Assertion::NotAllFlooded { t } => (t as int) <= t_max,
    }
}

/// Whether some neighbour of cluster `i` is flooded at time `t`, over the
/// concrete flood matrix.
fn any_neighbour_flooded(g: &ClusterGraph, floods: &Vec<Vec<bool>>, i: usize, t: usize) -> (r:
    bool)
    requires
        (i as int) < g.neighbours@.len(),
        nb_in_range(*g),
        floods@.len() == g.clusters@.len(),
        forall|k: int| 0 <= k < floods@.len() ==> (t as int) < (#[trigger] floods@[k]@).len(),
    ensures
        r == neighbour_flooded(*g, floods_view(floods@), i as int, t as int),
{
    let nb = &g.neighbours[i];
    let mut k: usize = 0;
    while k < nb.len()
        invariant
            (i as int) < g.neighbours@.len(),
            nb_in_range(*g),
            floods@.len() == g.clusters@.len(),
            forall|k2: int|
                0 <= k2 < floods@.len() ==> (t as int) < (#[trigger] floods@[k2]@).len(),
            nb@ == g.neighbours@[i as int]@,
            k <= nb@.len(),
            forall|k2: int|
                0 <= k2 < k ==> !floods_view(floods@)[#[trigger] nb@[k2] as int][t as int],
        decreases nb@.len() - k,
    {
        let j = nb[k];
        proof {
            assert(g.neighbours@[i as int]@.contains(nb@[k as int]));
        }
        if floods[j][t] {
            proof {
                assert(nb_contains(*g, i as int, j) && floods_view(floods@)[j as int][t as int]);
            }
            return true;
        }
        k += 1;
    }
    proof {
        if neighbour_flooded(*g, floods_view(floods@), i as int, t as int) {
            let j = choose|j: usize|
                #[trigger] nb_contains(*g, i as int, j) && floods_view(floods@)[j as int][t as int];
            let k2 = choose|k2: int| 0 <= k2 < nb@.len() && nb@[k2] == j;
        }
    }
    false
}

/// Whether every cluster is flooded at time `t`, over the concrete flood
/// matrix.
fn check_all_flooded(floods: &Vec<Vec<bool>>, t: usize) -> (r: bool)
    requires
        forall|k: int| 0 <= k < floods@.len() ==> (t as int) < (#[trigger] floods@[k]@).len(),
    ensures
        r == all_flooded(floods_view(floods@), t as int),
{
    let mut i: usize = 0;
    while i < floods.len()
        invariant
            i <= floods@.len(),
            forall|k: int|
                0 <= k < floods@.len() ==> (t as int) < (#[trigger] floods@[k]@).len(),
            forall|k: int| 0 <= k < i ==> floods_view(floods@)[k][t as int],
        decreases floods@.len() - i,
    {
        if !floods[i][t] {
            proof {
                assert(!floods_view(floods@)[i as int][t as int]);
            }
            return false;
        }
        i += 1;
    }
    true
}

/// Evaluates one assertion over a concrete assignment.
fn eval_assertion(
    g: &ClusterGraph,
    a: Assertion,
    num_colors: usize,
    t_max: usize,
    colors: &Vec<u8>,
    floods: &Vec<Vec<bool>>,
) -> (r: bool)
    requires
        nb_in_range(*g),
        g.neighbours@.len() == g.clusters@.len(),
        assertion_in_range(a, g.clusters@.len() as int, t_max as int),
        colors@.len() == t_max,
        floods@.len() == g.clusters@.len(),
        forall|k: int| 0 <= k < floods@.len() ==> (#[trigger] floods@[k]@).len() == t_max + 1,
    ensures
        r == assertion_holds(a, *g, num_colors as int, colors@, floods_view(floods@)),
{
    match a {
        Assertion::ColorDomain { t } => (colors[t] as usize) < num_colors,
        Assertion::ColorsDiffer { t } => colors[t] != colors[t + 1],
        Assertion::Flooded { i, t } => floods[i][t],
        Assertion::NotFloodedAtStart { i } => !floods[i][0],
        Assertion::Monotone { i, t } => !floods[i][t] || floods[i][t + 1],
        Assertion::Grows { i, t } => {
            let premise = any_neighbour_flooded(g, floods, i, t) && colors[t]
                == g.clusters[i].color;
            !premise || floods[i][t + 1]
        },
        Assertion::Stalls { i, t } => {
            let premise = !floods[i][t] && (!any_neighbour_flooded(g, floods, i, t) || colors[t]
                != g.clusters[i].color);
            !premise || !floods[i][t + 1]
        },
        Assertion::NotAllFlooded { t } => !check_all_flooded(floods, t),
    }
}

/// Evaluates a whole model over a concrete assignment: true exactly when
/// every assertion of the model holds of it.
pub fn check_assignment(
    g: &ClusterGraph,
    m: &ConstraintModel,
    colors: &Vec<u8>,
    floods: &Vec<Vec<bool>>,
) -> (r: bool)
    requires
        m.complete(*g),
        nb_in_range(*g),
        g.neighbours@.len() == g.clusters@.len(),
        colors@.len() == m.t_max,
        floods@.len() == g.clusters@.len(),
        forall|k: int| 0 <= k < floods@.len() ==> (#[trigger] floods@[k]@).len() == m.t_max + 1,
    ensures
        r == m.satisfied_by(*g, colors@, floods_view(floods@)),
{
    let mut k: usize = 0;
    while k < m.assertions.len()
        invariant
            m.complete(*g),
            nb_in_range(*g),
            g.neighbours@.len() == g.clusters@.len(),
            colors@.len() == m.t_max,
            floods@.len() == g.clusters@.len(),
            forall|k2: int|
                0 <= k2 < floods@.len() ==> (#[trigger] floods@[k2]@).len() == m.t_max + 1,
            k <= m.assertions@.len(),
            forall|k2: int|
                0 <= k2 < k ==> assertion_holds(
                    #[trigger] m.assertions@[k2],
                    *g,
                    m.num_colors as int,
                    colors@,
                    floods_view(floods@),
                ),
        decreases m.assertions@.len() - k,
    {
        let a = m.assertions[k];
        proof {
            assert(m.assertions@.contains(m.assertions@[k as int]));
        }
        if !eval_assertion(g, a, m.num_colors, m.t_max, colors, floods) {
            proof {
                assert(m.assertions@.contains(a));
            }
            return false;
        }
        k += 1;
    }
    proof {
        assert forall|a: Assertion| #[trigger]
            m.assertions@.contains(a) implies assertion_holds(
            a,
            *g,
            m.num_colors as int,
            colors@,
            floods_view(floods@),
        ) by {
            let k2 = choose|k2: int| 0 <= k2 < m.assertions@.len() && m.assertions@[k2] == a;
            assert(assertion_holds(
                m.assertions@[k2],
                *g,
                m.num_colors as int,
                colors@,
                floods_view(floods@),
            ));
        }
    }
    true
}

/// The flooded region that the color sequence itself determines: at time
/// `0` only the origin cluster; afterwards a cluster stays flooded, and
/// becomes flooded when its color is chosen while a neighbour is flooded.
pub open spec fn sim_flood(g: ClusterGraph, colors: Seq<u8>, i: int, t: int) -> bool
    decreases t,
{
    if t <= 0 {
        i == g.origin as int
    } else {
        sim_flood(g, colors, i, t - 1) || (colors[t - 1] == cluster_color(g, i)
            && exists|j: usize| #[trigger] nb_contains(g, i, j) && sim_flood(
            g,
            colors,
            j as int,
            t - 1,
        ))
    }
}

/// In any satisfying assignment the flood variables are monotone in time:
/// a cluster flooded at `t1` is flooded at every later `t2` of the model.
pub proof fn lemma_flood_monotone(
    g: ClusterGraph,
    m: ConstraintModel,
    colors: Seq<u8>,
    floods: Seq<Seq<bool>>,
    i: int,
    t1: int,
    t2: int,
)
    requires
        m.complete(g),
        m.satisfied_by(g, colors, floods),
        (g.origin as int) < g.clusters@.len(),
        0 <= i < g.clusters@.len(),
        0 <= t1 <= t2 <= m.t_max,
        floods[i][t1],
    ensures
        floods[i][t2],
    decreases t2 - t1,
{
    if t1 < t2 {
        if i == g.origin as int {
            let a = Assertion::Flooded { i: g.origin, t: t2 as usize };
            assert(m.assertions@.contains(a));
            assert(assertion_holds(a, g, m.num_colors as int, colors, floods));
        } else {
            let a = Assertion::Monotone { i: i as usize, t: t1 as usize };
            assert(m.assertions@.contains(a));
            assert(assertion_holds(a, g, m.num_colors as int, colors, floods));
            lemma_flood_monotone(g, m, colors, floods, i, t1 + 1, t2);
        }
    }
}

/// The model's assertions pin the flood variables down: in any satisfying
/// assignment every `flood[i][t]` carries exactly the value that the color
/// sequence determines.
pub proof fn lemma_model_pins_floods(
    g: ClusterGraph,
    m: ConstraintModel,
    colors: Seq<u8>,
    floods: Seq<Seq<bool>>,
    i: int,
    t: int,
)
    requires
        m.complete(g),
        m.satisfied_by(g, colors, floods),
        (g.origin as int) < g.clusters@.len(),
        nb_in_range(g),
        g.neighbours@.len() == g.clusters@.len(),
        floods.len() == g.clusters@.len(),
        0 <= i < g.clusters@.len(),
        0 <= t <= m.t_max,
    ensures
        floods[i][t] == sim_flood(g, colors, i, t),
    decreases t,
{
    let n = g.clusters@.len() as int;
    let origin = g.origin as int;
    if t == 0 {
        if i == origin {
            let a = Assertion::Flooded { i: g.origin, t: 0 };
            assert(m.assertions@.contains(a));
            assert(assertion_holds(a, g, m.num_colors as int, colors, floods));
        } else {
            let a = Assertion::NotFloodedAtStart { i: i as usize };
            assert(m.assertions@.contains(a));
            assert(assertion_holds(a, g, m.num_colors as int, colors, floods));
        }
    } else {
        assert forall|i2: int| 0 <= i2 < n implies #[trigger] floods[i2][t - 1] == sim_flood(
            g,
            colors,
            i2,
            t - 1,
        ) by {
            lemma_model_pins_floods(g, m, colors, floods, i2, t - 1);
        }
        if i == origin {
            let a = Assertion::Flooded { i: g.origin, t: t as usize };
            assert(m.assertions@.contains(a));
            assert(assertion_holds(a, g, m.num_colors as int, colors, floods));
            let a2 = Assertion::Flooded { i: g.origin, t: (t - 1) as usize };
            assert(m.assertions@.contains(a2));
            assert(assertion_holds(a2, g, m.num_colors as int, colors, floods));
            assert(floods[origin][t - 1]);
            assert(sim_flood(g, colors, i, t - 1));
        } else {
            let am = Assertion::Monotone { i: i as usize, t: (t - 1) as usize };
            let ag = Assertion::Grows { i: i as usize, t: (t - 1) as usize };
            let as_ = Assertion::Stalls { i: i as usize, t: (t - 1) as usize };
            assert(m.assertions@.contains(am));
            assert(assertion_holds(am, g, m.num_colors as int, colors, floods));
            assert(m.assertions@.contains(ag));
            assert(assertion_holds(ag, g, m.num_colors as int, colors, floods));
            assert(m.assertions@.contains(as_));
            assert(assertion_holds(as_, g, m.num_colors as int, colors, floods));
            if sim_flood(g, colors, i, t - 1) {
                assert(floods[i][t - 1]);
                assert(floods[i][t]);
                assert(sim_flood(g, colors, i, t));
            } else if colors[t - 1] == cluster_color(g, i) && exists|j: usize|
                #[trigger] nb_contains(g, i, j) && sim_flood(g, colors, j as int, t - 1) {
                let j = choose|j: usize|
                    #[trigger] nb_contains(g, i, j) && sim_flood(g, colors, j as int, t - 1);
                assert(floods[j as int][t - 1]);
                assert(neighbour_flooded(g, floods, i, t - 1));
                assert(floods[i][t]);
                assert(sim_flood(g, colors, i, t));
            } else {
                assert(!sim_flood(g, colors, i, t - 1));
                assert(!floods[i][t - 1]);
                if neighbour_flooded(g, floods, i, t - 1) && colors[t - 1] == cluster_color(
                    g,
                    i,
                ) {
                    let j = choose|j: usize|
                        #[trigger] nb_contains(g, i, j) && floods[j as int][t - 1];
                    assert(sim_flood(g, colors, j as int, t - 1));
                    assert(false);
                }
                assert(!floods[i][t]);
                assert(!sim_flood(g, colors, i, t));
            }
        }
    }
}

/// Over a single cluster the origin is everything: in any satisfying
/// assignment the whole grid is flooded already at time `0`, so the
/// implied solution length is `0` and the decoded solution is empty.
pub proof fn lemma_single_cluster_length_zero(
    g: ClusterGraph,
    m: ConstraintModel,
    colors: Seq<u8>,
    floods: Seq<Seq<bool>>,
)
    requires
        m.complete(g),
        m.satisfied_by(g, colors, floods),
        g.clusters@.len() == 1,
        (g.origin as int) < 1,
        floods.len() == 1,
    ensures
        all_flooded(floods, 0),
        solution_length(floods, m.t_max as int) == 0,
{
    let a = Assertion::Flooded { i: g.origin, t: 0 };
    assert(m.assertions@.contains(a));
    assert(assertion_holds(a, g, m.num_colors as int, colors, floods));
    assert(floods[0][0]);
}

/// Without the optimization objective the tightness assertion pins the
/// implied solution length to the whole horizon: the grid is not fully
/// flooded at any earlier time.
pub proof fn lemma_exact_mode_full_length(
    g: ClusterGraph,
    m: ConstraintModel,
    colors: Seq<u8>,
    floods: Seq<Seq<bool>>,
)
    requires
        m.complete(g),
        m.satisfied_by(g, colors, floods),
        !m.optimize,
        m.t_max >= 1,
        (g.origin as int) < g.clusters@.len(),
        floods.len() == g.clusters@.len(),
    ensures
        solution_length(floods, m.t_max as int) == m.t_max,
{
    let n = g.clusters@.len() as int;
    let t_max = m.t_max as int;
    let tight = Assertion::NotAllFlooded { t: (t_max - 1) as usize };
    assert(m.assertions@.contains(tight));
    assert(assertion_holds(tight, g, m.num_colors as int, colors, floods));
    assert(!all_flooded(floods, t_max - 1));
    assert forall|t2: int| 0 <= t2 < t_max implies !all_flooded(floods, t2) by {
        if t2 < t_max - 1 && all_flooded(floods, t2) {
            assert forall|i: int| 0 <= i < n implies #[trigger] floods[i][t_max - 1] by {
                assert(floods[i][t2]);
                lemma_flood_monotone(g, m, colors, floods, i, t2, t_max - 1);
            }
            assert(all_flooded(floods, t_max - 1));
        }
    }
    lemma_solution_length_first_any(floods, t_max);
    lemma_solution_length_range(floods, t_max);
    lemma_first_all_flooded_found(floods, t_max, 0);
}

proof fn lemma_first_all_flooded_found(floods: Seq<Seq<bool>>, t_max: int, from: int)
    requires
        0 <= from <= t_max,
    ensures
        first_all_flooded(floods, t_max, from) < t_max ==> all_flooded(
            floods,
            first_all_flooded(floods, t_max, from),
        ),
    decreases t_max - from,
{
    if from < t_max && !all_flooded(floods, from) {
        lemma_first_all_flooded_found(floods, t_max, from + 1);
    }
}

proof fn lemma_solution_length_first_any(floods: Seq<Seq<bool>>, t_max: int)
    requires
        t_max >= 0,
    ensures
        forall|t2: int|
            0 <= t2 < solution_length(floods, t_max) ==> !all_flooded(floods, t2),
{
    lemma_first_not_flooded_below(floods, t_max, 0);
}

proof fn lemma_first_not_flooded_below(floods: Seq<Seq<bool>>, t_max: int, from: int)
    requires
        0 <= from <= t_max,
    ensures
        forall|t2: int|
            from <= t2 < first_all_flooded(floods, t_max, from) ==> !all_flooded(floods, t2),
    decreases t_max - from,
{
    if from < t_max && !all_flooded(floods, from) {
        lemma_first_not_flooded_below(floods, t_max, from + 1);
    }
}

/// The value behind an extracted color variable, `0` when it is absent.
pub open spec fn opt_color(o: Option<u8>) -> u8 {
    match o {
        Option::Some(v) => v,
        Option::None => 0,
    }
}

/// The value behind an extracted flood variable, `false` when it is
/// absent.
pub open spec fn opt_flood(o: Option<bool>) -> bool {
    match o {
        Option::Some(v) => v,
        Option::None => false,
    }
}

/// The extracted color values.
pub open spec fn color_values(colors: Seq<Option<u8>>) -> Seq<u8> {
    colors.map_values(|o: Option<u8>| opt_color(o))
}

/// The extracted flood matrix.
pub open spec fn flood_values(floods: Seq<Vec<Option<bool>>>) -> Seq<Seq<bool>> {
    floods.map_values(|row: Vec<Option<bool>>| row@.map_values(|o: Option<bool>| opt_flood(o)))
}

/// Whether every queried variable got a value.
pub open spec fn extraction_complete(
    colors: Seq<Option<u8>>,
    floods: Seq<Vec<Option<bool>>>,
) -> bool {
    &&& forall|t: int| 0 <= t < colors.len() ==> (#[trigger] colors[t]).is_some()
    &&& forall|i: int, t: int|
        0 <= i < floods.len() && 0 <= t < floods[i]@.len() ==> (#[trigger] floods[i]@[t]).is_some()
}

/// The smallest `t` in `from..=t_max` at which all clusters are flooded,
/// or `t_max` when there is none.
pub open spec fn first_all_flooded(floods: Seq<Seq<bool>>, t_max: int, from: int) -> int
    decreases t_max - from,
{
    if from >= t_max {
        t_max
    } else if all_flooded(floods, from) {
        from
    } else {
        first_all_flooded(floods, t_max, from + 1)
    }
}

/// The length of the solution that a flood matrix implies: the first time
/// at which the whole grid is flooded, `t_max` when that never happens
/// below `t_max`.
pub open spec fn solution_length(floods: Seq<Seq<bool>>, t_max: int) -> int {
    first_all_flooded(floods, t_max, 0)
}

proof fn lemma_first_all_flooded_range(floods: Seq<Seq<bool>>, t_max: int, from: int)
    requires
        0 <= from <= t_max,
    ensures
        from <= first_all_flooded(floods, t_max, from) <= t_max,
    decreases t_max - from,
{
    if from < t_max && !all_flooded(floods, from) {
        lemma_first_all_flooded_range(floods, t_max, from + 1);
    }
}

proof fn lemma_first_all_flooded_finds(floods: Seq<Seq<bool>>, t_max: int, from: int)
    requires
        0 <= from <= t_max,
        all_flooded(floods, t_max),
    ensures
        all_flooded(floods, first_all_flooded(floods, t_max, from)),
        forall|t2: int|
            from <= t2 < first_all_flooded(floods, t_max, from) ==> !all_flooded(floods, t2),
    decreases t_max - from,
{
    if from < t_max && !all_flooded(floods, from) {
        lemma_first_all_flooded_finds(floods, t_max, from + 1);
    }
}

/// When the whole grid is flooded at the horizon, the implied solution
/// length is the first fully flooded time, and no earlier time is fully
/// flooded.
pub proof fn lemma_solution_length_first(floods: Seq<Seq<bool>>, t_max: int)
    requires
        t_max >= 0,
        all_flooded(floods, t_max),
    ensures
        all_flooded(floods, solution_length(floods, t_max)),
        forall|t2: int|
            0 <= t2 < solution_length(floods, t_max) ==> !all_flooded(floods, t2),
{
    lemma_first_all_flooded_finds(floods, t_max, 0);
}

/// The implied solution length lies inside `0..=t_max`.
pub proof fn lemma_solution_length_range(floods: Seq<Seq<bool>>, t_max: int)
    requires
        t_max >= 0,
    ensures
        0 <= solution_length(floods, t_max) <= t_max,
{
    lemma_first_all_flooded_range(floods, t_max, 0);
}

/// Reads a solution off the values extracted for the model's variables:
/// the color sequence truncated to the first time at which every cluster
/// is flooded.  Returns `None` when any queried variable is absent.
pub fn decode(colors: &Vec<Option<u8>>, floods: &Vec<Vec<Option<bool>>>, t_max: usize) -> (r:
    Option<crate::solution::Solution>)
    requires
        colors@.len() == t_max,
        forall|i: int| 0 <= i < floods@.len() ==> (#[trigger] floods@[i]@).len() == t_max + 1,
    ensures
        r.is_some() <==> extraction_complete(colors@, floods@),
        r.is_some() ==> {
            let len = solution_length(flood_values(floods@), t_max as int);
            r.unwrap().colors@ == color_values(colors@).subrange(0, len)
        },
{
    let ghost fvals = flood_values(floods@);
    let mut fvec: Vec<Vec<bool>> = Vec::new();
    let mut i: usize = 0;
    while i < floods.len()
        invariant
            i <= floods@.len(),
            forall|i2: int|
                0 <= i2 < floods@.len() ==> (#[trigger] floods@[i2]@).len() == t_max + 1,
            fvec@.len() == i,
            forall|i2: int| 0 <= i2 < i ==> (#[trigger] fvec@[i2]@) == flood_values(floods@)[i2],
            forall|i2: int, t2: int|
                0 <= i2 < i && 0 <= t2 < floods@[i2]@.len() ==> (#[trigger] floods@[i2]@[t2]).is_some(),
        decreases floods@.len() - i,
    {
        let row = &floods[i];
        let mut rv: Vec<bool> = Vec::new();
        let mut t: usize = 0;
        while t < row.len()
            invariant
                row@ == floods@[i as int]@,
                i < floods@.len(),
                t <= row@.len(),
                rv@.len() == t,
                forall|t2: int| 0 <= t2 < t ==> (#[trigger] rv@[t2]) == opt_flood(row@[t2]),
                forall|t2: int| 0 <= t2 < t ==> (#[trigger] row@[t2]).is_some(),
            decreases row@.len() - t,
        {
            match row[t] {
                Some(b) => {
                    rv.push(b);
                },
                None => {
                    proof {
                        assert(!(#[trigger] floods@[i as int]@[t as int]).is_some());
                    }
                    return None;
                },
            }
            t += 1;
        }
        proof {
            assert(rv@ =~= flood_values(floods@)[i as int]);
        }
        fvec.push(rv);
        i += 1;
    }
    let mut cvec: Vec<u8> = Vec::new();
    let mut t: usize = 0;
    while t < colors.len()
        invariant
            colors@.len() == t_max,
            t <= t_max,
            cvec@.len() == t,
            forall|t2: int| 0 <= t2 < t ==> (#[trigger] cvec@[t2]) == opt_color(colors@[t2]),
            forall|t2: int| 0 <= t2 < t ==> (#[trigger] colors@[t2]).is_some(),
            fvec@.len() == floods@.len(),
            forall|i2: int|
                0 <= i2 < floods@.len() ==> (#[trigger] fvec@[i2]@) == flood_values(floods@)[i2],
            forall|i2: int, t2: int|
                0 <= i2 < floods@.len() && 0 <= t2 < floods@[i2]@.len() ==> (
                #[trigger] floods@[i2]@[t2]).is_some(),
        decreases t_max - t,
    {
        match colors[t] {
            Some(c) => {
                cvec.push(c);
            },
            None => {
                proof {
                    assert(!(#[trigger] colors@[t as int]).is_some());
                }
                return None;
            },
        }
        t += 1;
    }
    proof {
        assert(cvec@ =~= color_values(colors@));
        assert(floods_view(fvec@) =~= fvals);
    }
    let mut len: usize = t_max;
    let mut t: usize = 0;
    let mut found = false;
    while t < t_max && !found
        invariant
            t <= t_max,
            colors@.len() == t_max,
            fvec@.len() == floods@.len(),
            forall|i2: int|
                0 <= i2 < fvec@.len() ==> (#[trigger] fvec@[i2]@).len() == t_max + 1,
            floods_view(fvec@) == fvals,
            cvec@ == color_values(colors@),
            cvec@.len() == t_max,
            !found ==> solution_length(fvals, t_max as int) == first_all_flooded(
                fvals,
                t_max as int,
                t as int,
            ),
            len <= t_max,
            !found ==> len == t_max,
            found ==> len == solution_length(fvals, t_max as int),
        decreases t_max - t, (if found { 0int } else { 1int }),
    {
        if check_all_flooded(&fvec, t) {
            len = t;
            found = true;
        } else {
            t += 1;
        }
    }
    proof {
        if !found {
            assert(solution_length(fvals, t_max as int) == t_max);
        }
    }
    cvec.truncate(len);
    proof {
        assert(cvec@ =~= color_values(colors@).subrange(
            0,
            solution_length(fvals, t_max as int),
        ));
    }
    Some(crate::solution::Solution { colors: cvec })
}

} // verus!
