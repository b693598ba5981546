//! Driving an external satisfiability engine over the constraint model.
//!
//! The engine is the `z3` crate.  Everything it handles — terms, solvers,
//! models — is opaque here: the library builds its assertions as
//! [`crate::model::Assertion`] values with exact contracts, translates each
//! one into an engine term through the small trusted wrappers below, and
//! interprets what the engine hands back with the verified decoder
//! [`crate::model::decode`].

use vstd::prelude::*;

use crate::cluster::{Cluster, ClusterGraph};
use crate::model::{
    assertion_in_range, build_model, nb_in_range, Assertion, ConstraintModel,
};
use crate::problem::Problem;
use crate::search::{
    is_ceil_sqrt, lemma_ceil_sqrt_unique, max_moves, min2, Action, SearchState, Verdict,
};
use crate::solution::Solution;

verus! {

#[verifier::external_type_specification]
#[verifier::external_body]
pub struct ExBool(z3::ast::Bool);

#[verifier::external_type_specification]
#[verifier::external_body]
pub struct ExInt(z3::ast::Int);

#[verifier::external_type_specification]
#[verifier::external_body]
pub struct ExSolver(z3::Solver);

#[verifier::external_type_specification]
#[verifier::external_body]
pub struct ExOptimize(z3::Optimize);

#[verifier::external_type_specification]
#[verifier::external_body]
pub struct ExModel(z3::Model);

/// Relies on z3::ast::Int::new_const: a fresh integer variable named by
/// the prefix and index.  The name is handed to the engine as a C string,
/// so the prefix must hold no NUL character.
#[verifier::external_body]
fn z3_int_var(prefix: &str, idx: usize) -> z3::ast::Int
    requires
        forall|i: int| 0 <= i < prefix@.len() ==> (#[trigger] prefix@[i] as u32) != 0,
{
    z3::ast::Int::new_const(format!("{prefix}_{idx}"))
}

/// Relies on z3::ast::Bool::new_const: a fresh boolean variable named by
/// the prefix and the two indices.  The name is handed to the engine as a
/// C string, so the prefix must hold no NUL character.
#[verifier::external_body]
fn z3_bool_var(prefix: &str, i: usize, t: usize) -> z3::ast::Bool
    requires
        forall|i2: int| 0 <= i2 < prefix@.len() ==> (#[trigger] prefix@[i2] as u32) != 0,
{
    z3::ast::Bool::new_const(format!("{prefix}_{i}_{t}"))
}

/// Relies on z3::ast::Int::from_u64: the constant term of the given value.
#[verifier::external_body]
fn z3_int_lit(v: u64) -> z3::ast::Int {
    z3::ast::Int::from_u64(v)
}

/// Relies on z3::ast::Int::ge: the atom `a >= b`.
#[verifier::external_body]
fn z3_int_ge(a: &z3::ast::Int, b: &z3::ast::Int) -> z3::ast::Bool {
    a.ge(b)
}

/// Relies on z3::ast::Int::lt: the atom `a < b`.
#[verifier::external_body]
fn z3_int_lt(a: &z3::ast::Int, b: &z3::ast::Int) -> z3::ast::Bool {
    a.lt(b)
}

/// Relies on z3::ast::Int::_eq: the atom `a == b`.
#[verifier::external_body]
fn z3_int_eq(a: &z3::ast::Int, b: &z3::ast::Int) -> z3::ast::Bool {
    a._eq(b)
}

/// Relies on z3::ast::Bool::not: the negation of `a`.
#[verifier::external_body]
fn z3_not(a: &z3::ast::Bool) -> z3::ast::Bool {
    a.not()
}

/// Relies on z3::ast::Bool::implies: the implication from `a` to `b`.
#[verifier::external_body]
fn z3_implies(a: &z3::ast::Bool, b: &z3::ast::Bool) -> z3::ast::Bool {
    a.implies(b)
}

/// Relies on z3::ast::Bool::and: the conjunction of the terms.  The
/// engine asks for at least one argument.
#[verifier::external_body]
fn z3_and(v: &Vec<z3::ast::Bool>) -> z3::ast::Bool
    requires
        v@.len() > 0,
{
    z3::ast::Bool::and(v.as_slice())
}

/// Relies on z3::ast::Bool::or: the disjunction of the terms.  The
/// engine asks for at least one argument.
#[verifier::external_body]
fn z3_or(v: &Vec<z3::ast::Bool>) -> z3::ast::Bool
    requires
        v@.len() > 0,
{
    z3::ast::Bool::or(v.as_slice())
}

/// Relies on z3::ast::Bool::ite: the integer `a` when `c` holds, else `b`.
#[verifier::external_body]
fn z3_ite_int(c: &z3::ast::Bool, a: &z3::ast::Int, b: &z3::ast::Int) -> z3::ast::Int {
    c.ite(a, b)
}

/// Relies on z3::ast::Int::add: the sum of the terms.  The engine asks
/// for at least one argument.
#[verifier::external_body]
fn z3_int_sum(v: &Vec<z3::ast::Int>) -> z3::ast::Int
    requires
        v@.len() > 0,
{
    z3::ast::Int::add(v.as_slice())
}

/// Relies on z3::ast::Bool::from_bool: the constant true or false term.
#[verifier::external_body]
fn z3_bool_lit(b: bool) -> z3::ast::Bool {
    z3::ast::Bool::from_bool(b)
}

/// Relies on the Clone impl of z3::ast::Bool: another handle on one term.
#[verifier::external_body]
fn z3_bool_clone(b: &z3::ast::Bool) -> z3::ast::Bool {
    b.clone()
}

/// Relies on z3::Solver::new: a fresh satisfiability solver.
#[verifier::external_body]
fn z3_solver_new() -> z3::Solver {
    z3::Solver::new()
}

/// Relies on z3::Solver::assert: adds the assertion to the solver.
#[verifier::external_body]
fn z3_solver_assert(s: &z3::Solver, b: &z3::ast::Bool) {
    s.assert(b)
}

/// Relies on z3::Solver::check, telling its three verdicts apart.
#[verifier::external_body]
fn z3_solver_check(s: &z3::Solver) -> Verdict {
    match s.check() {
        z3::SatResult::Sat => Verdict::Sat,
        z3::SatResult::Unsat => Verdict::Unsat,
        z3::SatResult::Unknown => Verdict::Unknown,
    }
}

/// Relies on z3::Solver::get_model: the model of the last check, if the
/// solver has one.
#[verifier::external_body]
fn z3_solver_model(s: &z3::Solver) -> Option<z3::Model> {
    s.get_model()
}

/// Relies on z3::Optimize::new: a fresh optimizing solver.
#[verifier::external_body]
fn z3_optimize_new() -> z3::Optimize {
    z3::Optimize::new()
}

/// Relies on z3::Optimize::assert: adds the assertion to the solver.
#[verifier::external_body]
fn z3_optimize_assert(o: &z3::Optimize, b: &z3::ast::Bool) {
    o.assert(b)
}

/// Relies on z3::Optimize::maximize: sets the term as the objective to
/// maximize.
#[verifier::external_body]
fn z3_optimize_maximize(o: &z3::Optimize, objective: &z3::ast::Int) {
    o.maximize(objective)
}

/// Relies on z3::Optimize::check, telling its three verdicts apart.
#[verifier::external_body]
fn z3_optimize_check(o: &z3::Optimize) -> Verdict {
    match o.check(&[]) {
        z3::SatResult::Sat => Verdict::Sat,
        z3::SatResult::Unsat => Verdict::Unsat,
        z3::SatResult::Unknown => Verdict::Unknown,
    }
}

/// Relies on z3::Optimize::get_model: the model of the last check, if the
/// solver has one.
#[verifier::external_body]
fn z3_optimize_model(o: &z3::Optimize) -> Option<z3::Model> {
    o.get_model()
}

/// Relies on z3::Model::eval without model completion: the value term of
/// `b` in the model, if the model assigns one.
#[verifier::external_body]
fn z3_eval_bool(m: &z3::Model, b: &z3::ast::Bool) -> Option<z3::ast::Bool> {
    m.eval(b, false)
}

/// Relies on z3::Model::eval without model completion: the value term of
/// `x` in the model, if the model assigns one.
#[verifier::external_body]
fn z3_eval_int(m: &z3::Model, x: &z3::ast::Int) -> Option<z3::ast::Int> {
    m.eval(x, false)
}

/// Relies on z3::ast::Bool::as_bool: the boolean behind a literal term.
#[verifier::external_body]
fn z3_bool_value(b: &z3::ast::Bool) -> Option<bool> {
    b.as_bool()
}

/// Relies on z3::ast::Int::as_u64: the number behind a literal term.
#[verifier::external_body]
fn z3_int_value(x: &z3::ast::Int) -> Option<u64> {
    x.as_u64()
}

/// A tagged handle on one of the engine's two solver variants: the plain
/// satisfiability checker, or the optimizing solver that also takes a
/// maximization objective.
pub enum SolverHandle {
    Plain(z3::Solver),
    Optimizing(z3::Optimize),
}

impl SolverHandle {
    /// A fresh solver: the optimizing variant exactly when `optimize`.
    pub fn new(optimize: bool) -> (r: SolverHandle)
        ensures
            (r is Optimizing) == optimize,
    {
        if optimize {
            SolverHandle::Optimizing(z3_optimize_new())
        } else {
            SolverHandle::Plain(z3_solver_new())
        }
    }

    /// Adds an assertion to the solver.
    pub fn assert_term(&self, b: &z3::ast::Bool) {
        match self {
            SolverHandle::Plain(s) => z3_solver_assert(s, b),
            SolverHandle::Optimizing(o) => z3_optimize_assert(o, b),
        }
    }

    /// Checks the assertions and reports the verdict.
    pub fn check(&self) -> Verdict {
        match self {
            SolverHandle::Plain(s) => z3_solver_check(s),
            SolverHandle::Optimizing(o) => z3_optimize_check(o),
        }
    }

    /// The model of the last check, if the solver has one.
    pub fn get_model(&self) -> Option<z3::Model> {
        match self {
            SolverHandle::Plain(s) => z3_solver_model(s),
            SolverHandle::Optimizing(o) => z3_optimize_model(o),
        }
    }

    /// Sets the objective to maximize; only the optimizing variant takes
    /// one.
    pub fn maximize(&self, objective: &z3::ast::Int)
        requires
            self is Optimizing,
    {
        match self {
            SolverHandle::Plain(_) => vstd::pervasive::unreached(),
            SolverHandle::Optimizing(o) => z3_optimize_maximize(o, objective),
        }
    }
}

/// A solver primed with the encoding of one solve attempt: the engine
/// handle, the variable terms, the asserted terms, the abstract model
/// behind them, and the cluster graph the model was built over.
pub struct SolverState {
    pub solver: SolverHandle,
    pub colors: Vec<z3::ast::Int>,
    pub floods: Vec<Vec<z3::ast::Bool>>,
    pub asserts: Vec<z3::ast::Bool>,
    pub model: ConstraintModel,
    pub graph: ClusterGraph,
}

impl SolverState {
    /// The shape that [`init_solver`] establishes and [`run_solver`]
    /// relies on.
    pub open spec fn wf(self) -> bool {
        &&& self.colors@.len() == self.model.t_max
        &&& self.floods@.len() == self.model.num_clusters
        &&& forall|i: int|
            0 <= i < self.floods@.len() ==> (#[trigger] self.floods@[i]@).len() == self.model.t_max
                + 1
        &&& self.model.num_clusters == self.graph.clusters@.len()
        &&& self.model.complete(self.graph)
        &&& nb_in_range(self.graph)
        &&& self.graph.neighbours@.len() == self.graph.clusters@.len()
        &&& (self.graph.origin as int) < self.graph.clusters@.len()
    }

    /// All assertions that were given to the solver.
    pub fn get_asserts(&self) -> (r: &Vec<z3::ast::Bool>)
        ensures
            r@ == self.asserts@,
    {
        &self.asserts
    }
}

/// Translates one abstract assertion into an engine term of the same
/// meaning over the given variable terms.
fn translate_assertion(
    a: Assertion,
    g: &ClusterGraph,
    num_colors: usize,
    colors: &Vec<z3::ast::Int>,
    floods: &Vec<Vec<z3::ast::Bool>>,
) -> z3::ast::Bool
    requires
        assertion_in_range(a, g.clusters@.len() as int, colors@.len() as int),
        colors@.len() < usize::MAX,
        nb_in_range(*g),
        g.neighbours@.len() == g.clusters@.len(),
        floods@.len() == g.clusters@.len(),
        forall|i: int|
            0 <= i < floods@.len() ==> (#[trigger] floods@[i]@).len() == colors@.len() + 1,
{
    match a {
        Assertion::ColorDomain { t } => {
            let zero = z3_int_lit(0);
            let nc = z3_int_lit(num_colors as u64);
            let mut both: Vec<z3::ast::Bool> = Vec::new();
            both.push(z3_int_ge(&colors[t], &zero));
            both.push(z3_int_lt(&colors[t], &nc));
            z3_and(&both)
        },
        Assertion::ColorsDiffer { t } => {
            z3_not(&z3_int_eq(&colors[t], &colors[t + 1]))
        },
        Assertion::Flooded { i, t } => z3_bool_clone(&floods[i][t]),
        Assertion::NotFloodedAtStart { i } => z3_not(&floods[i][0]),
        Assertion::Monotone { i, t } => z3_implies(&floods[i][t], &floods[i][t + 1]),
        Assertion::Grows { i, t } => {
            let nbf = any_neighbour_term(g, floods, i, t);
            let color_eq = z3_int_eq(&colors[t], &z3_int_lit(g.clusters[i].color as u64));
            let mut premise: Vec<z3::ast::Bool> = Vec::new();
            premise.push(nbf);
            premise.push(color_eq);
            z3_implies(&z3_and(&premise), &floods[i][t + 1])
        },
        Assertion::Stalls { i, t } => {
            let nbf = any_neighbour_term(g, floods, i, t);
            let color_eq = z3_int_eq(&colors[t], &z3_int_lit(g.clusters[i].color as u64));
            let mut either: Vec<z3::ast::Bool> = Vec::new();
            either.push(z3_not(&nbf));
            either.push(z3_not(&color_eq));
            let mut premise: Vec<z3::ast::Bool> = Vec::new();
            premise.push(z3_not(&floods[i][t]));
            premise.push(z3_or(&either));
            z3_implies(&z3_and(&premise), &z3_not(&floods[i][t + 1]))
        },
        Assertion::NotAllFlooded { t } => {
            z3_not(&all_flooded_term(floods, t))
        },
    }
}

/// The disjunction of the flood terms of cluster `i`'s neighbours at time
/// `t`.
fn any_neighbour_term(
    g: &ClusterGraph,
    floods: &Vec<Vec<z3::ast::Bool>>,
    i: usize,
    t: usize,
) -> z3::ast::Bool
    requires
        (i as int) < g.neighbours@.len(),
        nb_in_range(*g),
        floods@.len() == g.clusters@.len(),
        forall|k: int| 0 <= k < floods@.len() ==> (t as int) < (#[trigger] floods@[k]@).len(),
{
    let nb = &g.neighbours[i];
    let mut terms: Vec<z3::ast::Bool> = Vec::new();
    let mut k: usize = 0;
    while k < nb.len()
        invariant
            (i as int) < g.neighbours@.len(),
            nb_in_range(*g),
            floods@.len() == g.clusters@.len(),
            forall|k2: int|
                0 <= k2 < floods@.len() ==> (t as int) < (#[trigger] floods@[k2]@).len(),
            nb@ == g.neighbours@[i as int]@,
            k <= nb@.len(),
            terms@.len() == k,
        decreases nb@.len() - k,
    {
        let j = nb[k];
        proof {
            assert(g.neighbours@[i as int]@.contains(nb@[k as int]));
        }
        terms.push(z3_bool_clone(&floods[j][t]));
        k += 1;
    }
    if terms.len() == 0 {
        // a cluster without neighbours: the empty disjunction is false
        return z3_bool_lit(false);
    }
    z3_or(&terms)
}

/// The conjunction of every cluster's flood term at time `t`.
fn all_flooded_term(floods: &Vec<Vec<z3::ast::Bool>>, t: usize) -> z3::ast::Bool
    requires
        forall|k: int| 0 <= k < floods@.len() ==> (t as int) < (#[trigger] floods@[k]@).len(),
{
    let mut terms: Vec<z3::ast::Bool> = Vec::new();
    let mut i: usize = 0;
    while i < floods.len()
        invariant
            forall|k: int|
                0 <= k < floods@.len() ==> (t as int) < (#[trigger] floods@[k]@).len(),
            i <= floods@.len(),
            terms@.len() == i,
        decreases floods@.len() - i,
    {
        terms.push(z3_bool_clone(&floods[i][t]));
        i += 1;
    }
    if terms.len() == 0 {
        // no clusters at all: the empty conjunction is true
        return z3_bool_lit(true);
    }
    z3_and(&terms)
}

/// The optimization objective: the count of time steps at which all
/// clusters are flooded, as a sum of if-then-else terms over `0..=t_max`.
fn objective_term(floods: &Vec<Vec<z3::ast::Bool>>, t_max: usize) -> z3::ast::Int
    requires
        t_max < usize::MAX,
        forall|k: int| 0 <= k < floods@.len() ==> (#[trigger] floods@[k]@).len() == t_max + 1,
{
    let one = z3_int_lit(1);
    let zero = z3_int_lit(0);
    let mut counts: Vec<z3::ast::Int> = Vec::new();
    let mut t: usize = 0;
    while t <= t_max
        invariant
            t_max < usize::MAX,
            t <= t_max + 1,
            counts@.len() == t,
            forall|k: int|
                0 <= k < floods@.len() ==> (#[trigger] floods@[k]@).len() == t_max + 1,
        decreases t_max + 1 - t,
    {
        let all_t = all_flooded_term(floods, t);
        counts.push(z3_ite_int(&all_t, &one, &zero));
        t += 1;
    }
    z3_int_sum(&counts)
}

/// Primes a solver with the encoding of the [problem instance][Problem]
/// over `t_max` move slots.
///
/// With `optimize` the solver is the optimizing variant, `t_max` behaves
/// as an upper bound, and the objective maximizes the count of times at
/// which the whole grid is flooded; without it `t_max` is pinned as the
/// exact solution length.
pub fn init_solver(instance: &Problem, t_max: usize, optimize: bool) -> (st: SolverState)
    requires
        instance.wf(),
        t_max < usize::MAX - 1,
    ensures
        st.wf(),
        st.graph.wf(instance@),
        st.model.complete(st.graph),
        st.model.t_max == t_max,
        st.model.optimize == optimize,
        crate::problem::is_num_colors(instance@, st.model.num_colors as int),
        st.asserts@.len() == st.model.assertions@.len(),
{
    let graph = ClusterGraph::build(instance);
    let num_colors = instance.num_colors();
    let m = build_model(&graph, num_colors, t_max, optimize);
    let n = graph.len();
    let mut colors: Vec<z3::ast::Int> = Vec::new();
    let mut t: usize = 0;
    while t < t_max
        invariant
            colors@.len() == t,
            t <= t_max,
        decreases t_max - t,
    {
        proof {
            reveal_strlit("c");
        }
        colors.push(z3_int_var("c", t));
        t += 1;
    }
    let mut floods: Vec<Vec<z3::ast::Bool>> = Vec::new();
    let mut i: usize = 0;
    while i < n
        invariant
            t_max < usize::MAX - 1,
            floods@.len() == i,
            i <= n,
            forall|i2: int| 0 <= i2 < i ==> (#[trigger] floods@[i2]@).len() == t_max + 1,
        decreases n - i,
    {
        let mut row: Vec<z3::ast::Bool> = Vec::new();
        let mut t2: usize = 0;
        while t2 <= t_max
            invariant
                t_max < usize::MAX - 1,
                row@.len() == t2,
                t2 <= t_max + 1,
            decreases t_max + 1 - t2,
        {
            proof {
                reveal_strlit("f");
            }
            row.push(z3_bool_var("f", i, t2));
            t2 += 1;
        }
        floods.push(row);
        i += 1;
    }
    let solver = SolverHandle::new(optimize);
    let mut asserts: Vec<z3::ast::Bool> = Vec::new();
    let mut k: usize = 0;
    while k < m.assertions.len()
        invariant
            t_max < usize::MAX - 1,
            m.complete(graph),
            graph.wf(instance@),
            nb_in_range(graph),
            graph.neighbours@.len() == graph.clusters@.len(),
            colors@.len() == m.t_max,
            m.t_max == t_max,
            floods@.len() == graph.clusters@.len(),
            forall|i2: int|
                0 <= i2 < floods@.len() ==> (#[trigger] floods@[i2]@).len() == t_max + 1,
            k <= m.assertions@.len(),
            asserts@.len() == k,
        decreases m.assertions@.len() - k,
    {
        let a = m.assertions[k];
        proof {
            assert(m.assertions@.contains(m.assertions@[k as int]));
        }
        let b = translate_assertion(a, &graph, m.num_colors, &colors, &floods);
        solver.assert_term(&b);
        asserts.push(b);
        k += 1;
    }
    if optimize {
        let objective = objective_term(&floods, t_max);
        solver.maximize(&objective);
    }
    proof {
        assert forall|i: int, j: usize|
            0 <= i < graph.neighbours@.len() && #[trigger] graph.neighbours@[i]@.contains(
            j,
        ) implies (j as int) < graph.clusters@.len() by {}
    }
    SolverState { solver, colors, floods, asserts, model: m, graph }
}

/// Checks the primed solver and, on a satisfiable verdict, extracts,
/// validates and decodes the model.
///
/// The verdict comes straight from the engine.  A missing model, a
/// variable without a value in it, or an extracted assignment that does
/// not satisfy the built assertions (confirmed by the verified
/// [`crate::model::check_assignment`]) all yield a satisfiable verdict
/// with no solution beside it.  A returned solution therefore reads a
/// satisfying assignment of the model off: it is that assignment's color
/// sequence, cut at the first time at which its flood matrix has the
/// whole grid flooded.
pub fn run_solver(st: SolverState) -> (r: (Verdict, Option<Solution>))
    requires
        st.wf(),
    ensures
        r.1.is_some() ==> r.0 is Sat && r.1.unwrap().colors@.len() <= st.model.t_max,
        r.1 matches Some(s) ==> exists|colors: Seq<u8>, floods: Seq<Seq<bool>>|
            {
                &&& colors.len() == st.model.t_max
                &&& floods.len() == st.graph.clusters@.len()
                &&& #[trigger] st.model.satisfied_by(st.graph, colors, floods)
                &&& s.colors@ == colors.subrange(
                    0,
                    crate::model::solution_length(floods, st.model.t_max as int),
                )
            },
        (!st.model.optimize && st.model.t_max >= 1) ==> (r.1 matches Some(s)
            ==> s.colors@.len() == st.model.t_max),
{
    let t_max = st.model.t_max;
    let verdict = st.solver.check();
    match verdict {
        Verdict::Unsat => (Verdict::Unsat, None),
        Verdict::Unknown => (Verdict::Unknown, None),
        Verdict::Sat => {
            let zmodel = match st.solver.get_model() {
                Some(zm) => zm,
                None => {
                    return (Verdict::Sat, None);
                },
            };
            let mut copt: Vec<Option<u8>> = Vec::new();
            let mut t: usize = 0;
            while t < t_max
                invariant
                    st.wf(),
                    t_max == st.model.t_max,
                    copt@.len() == t,
                    t <= t_max,
                decreases t_max - t,
            {
                let v = match z3_eval_int(&zmodel, &st.colors[t]) {
                    Some(term) => z3_int_value(&term),
                    None => None,
                };
                let c = match v {
                    Some(x) => if x <= 255 {
                        Some(x as u8)
                    } else {
                        None
                    },
                    None => None,
                };
                copt.push(c);
                t += 1;
            }
            let mut fopt: Vec<Vec<Option<bool>>> = Vec::new();
            let mut i: usize = 0;
            while i < st.floods.len()
                invariant
                    st.wf(),
                    t_max == st.model.t_max,
                    fopt@.len() == i,
                    i <= st.floods@.len(),
                    forall|i2: int|
                        0 <= i2 < i ==> (#[trigger] fopt@[i2]@).len() == t_max + 1,
                decreases st.floods@.len() - i,
            {
                let row = &st.floods[i];
                let mut orow: Vec<Option<bool>> = Vec::new();
                let mut t2: usize = 0;
                while t2 < row.len()
                    invariant
                        st.wf(),
                        i < st.floods@.len(),
                        row@ == st.floods@[i as int]@,
                        orow@.len() == t2,
                        t2 <= row@.len(),
                    decreases row@.len() - t2,
                {
                    let b = match z3_eval_bool(&zmodel, &row[t2]) {
                        Some(term) => z3_bool_value(&term),
                        None => None,
                    };
                    orow.push(b);
                    t2 += 1;
                }
                fopt.push(orow);
                i += 1;
            }
            let sol = match crate::model::decode(&copt, &fopt, t_max) {
                Some(s) => s,
                None => {
                    return (Verdict::Sat, None);
                },
            };
            // read the extracted values off as a concrete assignment and
            // confirm that it satisfies the built assertions
            let mut cvals: Vec<u8> = Vec::new();
            let mut t: usize = 0;
            while t < t_max
                invariant
                    crate::model::extraction_complete(copt@, fopt@),
                    copt@.len() == t_max,
                    cvals@.len() == t,
                    t <= t_max,
                    forall|k: int|
                        0 <= k < t ==> (#[trigger] cvals@[k]) == crate::model::opt_color(
                            copt@[k],
                        ),
                decreases t_max - t,
            {
                let c = copt[t].unwrap();
                cvals.push(c);
                t += 1;
            }
            let mut fvals: Vec<Vec<bool>> = Vec::new();
            let mut i: usize = 0;
            while i < fopt.len()
                invariant
                    crate::model::extraction_complete(copt@, fopt@),
                    fopt@.len() == st.floods@.len(),
                    forall|i2: int|
                        0 <= i2 < fopt@.len() ==> (#[trigger] fopt@[i2]@).len() == t_max + 1,
                    fvals@.len() == i,
                    i <= fopt@.len(),
                    forall|i2: int|
                        0 <= i2 < i ==> (#[trigger] fvals@[i2]@) == crate::model::flood_values(
                            fopt@,
                        )[i2],
                decreases fopt@.len() - i,
            {
                let row = &fopt[i];
                let mut rv: Vec<bool> = Vec::new();
                let mut t2: usize = 0;
                while t2 < row.len()
                    invariant
                        crate::model::extraction_complete(copt@, fopt@),
                        i < fopt@.len(),
                        row@ == fopt@[i as int]@,
                        rv@.len() == t2,
                        t2 <= row@.len(),
                        forall|k: int|
                            0 <= k < t2 ==> (#[trigger] rv@[k]) == crate::model::opt_flood(
                                row@[k],
                            ),
                    decreases row@.len() - t2,
                {
                    proof {
                        assert((#[trigger] fopt@[i as int]@[t2 as int]).is_some());
                    }
                    let b = row[t2].unwrap();
                    rv.push(b);
                    t2 += 1;
                }
                proof {
                    assert(rv@ =~= crate::model::flood_values(fopt@)[i as int]);
                }
                fvals.push(rv);
                i += 1;
            }
            proof {
                assert(cvals@ =~= crate::model::color_values(copt@));
                assert(crate::model::floods_view(fvals@) =~= crate::model::flood_values(fopt@));
            }
            if !crate::model::check_assignment(&st.graph, &st.model, &cvals, &fvals) {
                return (Verdict::Sat, None);
            }
            proof {
                let floods_spec = crate::model::floods_view(fvals@);
                crate::model::lemma_solution_length_range(floods_spec, t_max as int);
                assert(st.model.satisfied_by(st.graph, cvals@, floods_spec));
                assert(sol.colors@ == cvals@.subrange(
                    0,
                    crate::model::solution_length(floods_spec, t_max as int),
                ));
                if !st.model.optimize && t_max >= 1 {
                    crate::model::lemma_exact_mode_full_length(
                        st.graph,
                        st.model,
                        cvals@,
                        floods_spec,
                    );
                }
            }
            (Verdict::Sat, Some(sol))
        },
    }
}

/// Whether the sizes an action carries are small enough to search over.
pub open spec fn action_bounds_ok(action: Action) -> bool {
    match action {
        Action::Opt { upper_bound: Option::Some(u) } => (u as int) < 0x1000_0000,
        Action::Search { lower_bound, upper_bound } => (upper_bound as int) < 0x1000_0000
            && lower_bound <= upper_bound,
        Action::Exact { size } => (size as int) < 0x1000_0000,
        _ => true,
    }
}

/// Whether `s` reads a satisfying assignment of the constraint model of
/// a cluster graph of `instance` off at its implied solution length.
///
/// [`run_solver`] confirms this with the verified
/// [`crate::model::check_assignment`] before handing a solution out, so
/// [`lemma_solution_solves_grid`] applies to everything [`solve`] returns.
pub open spec fn decodes_satisfying_assignment(instance: Problem, s: Solution) -> bool {
    exists|g: ClusterGraph, m: ConstraintModel, colors: Seq<u8>, floods: Seq<Seq<bool>>|
        {
            &&& g.wf(instance@)
            &&& m.complete(g)
            &&& colors.len() == m.t_max
            &&& floods.len() == g.clusters@.len()
            &&& #[trigger] m.satisfied_by(g, colors, floods)
            &&& s.colors@ == colors.subrange(
                0,
                crate::model::solution_length(floods, m.t_max as int),
            )
        }
}

/// What a returned solution means on the grid: replaying its colors in
/// order through the recoloring step of
/// [`crate::problem::Problem::apply_color`] makes the instance one color
/// after exactly as many moves as it holds, and after no shorter prefix.
pub proof fn lemma_solution_solves_grid(instance: Problem, s: Solution)
    requires
        instance.wf(),
        decodes_satisfying_assignment(instance, s),
    ensures
        crate::replay::single_colored(
            crate::replay::replay(instance@, s.colors@, s.colors@.len() as int),
        ),
        forall|t2: int|
            0 <= t2 < s.colors@.len() ==> !crate::replay::single_colored(
                #[trigger] crate::replay::replay(instance@, s.colors@, t2),
            ),
{
    let (g, m, colors, floods) = choose|
        g: ClusterGraph,
        m: ConstraintModel,
        colors: Seq<u8>,
        floods: Seq<Seq<bool>>,
    |
        {
            &&& g.wf(instance@)
            &&& m.complete(g)
            &&& colors.len() == m.t_max
            &&& floods.len() == g.clusters@.len()
            &&& #[trigger] m.satisfied_by(g, colors, floods)
            &&& s.colors@ == colors.subrange(
                0,
                crate::model::solution_length(floods, m.t_max as int),
            )
        };
    assert forall|i: int, j: usize|
        0 <= i < g.neighbours@.len() && #[trigger] g.neighbours@[i]@.contains(j) implies (
    j as int) < g.clusters@.len() by {}
    crate::model::lemma_solution_length_range(floods, m.t_max as int);
    let len = crate::model::solution_length(floods, m.t_max as int);
    assert(s.colors@.len() == len);
    crate::replay::lemma_decoded_solution_round_trip(instance@, g, m, colors, floods);
    crate::replay::lemma_replay_prefix(instance@, colors, s.colors@, len);
    assert forall|t2: int|
        0 <= t2 < s.colors@.len() implies !crate::replay::single_colored(
        #[trigger] crate::replay::replay(instance@, s.colors@, t2),
    ) by {
        crate::replay::lemma_replay_prefix(instance@, colors, s.colors@, t2);
        assert(!crate::replay::single_colored(crate::replay::replay(instance@, colors, t2)));
    }
}

/// Solves an instance by the chosen action: through the optimizer, or by
/// binary search over the solution length.
///
/// Each attempt primes a fresh solver at the horizon in the middle of the
/// remaining interval; a satisfiable verdict records the decoded solution
/// and continues below that horizon, any other verdict continues above it.
/// The returned solution, if any, is the one of the last satisfiable
/// attempt; it reads a satisfying assignment of the attempt's model off,
/// its length never passes the action's own cap, and under the fallback
/// bounds it never passes the closed-form bounds of [`max_moves`].
pub fn solve(instance: &Problem, action: &Action) -> (r: (Verdict, Option<Solution>))
    requires
        instance.wf(),
        action_bounds_ok(*action),
    ensures
        r.1.is_some() ==> r.0 is Sat,
        r.1 matches Some(s) ==> decodes_satisfying_assignment(*instance, s),
        *action matches Action::Exact { size } ==> (r.1.is_some()
            ==> r.1.unwrap().colors@.len() == size),
        *action matches Action::Search { upper_bound, .. } ==> (r.1.is_some()
            ==> r.1.unwrap().colors@.len() <= upper_bound),
        *action matches Action::Opt { upper_bound: Some(u) } ==> (r.1.is_some()
            ==> r.1.unwrap().colors@.len() <= u),
        (((*action is Min) || (*action is Solve) || (*action matches Action::Opt {
            upper_bound: Option::None,
        })) && r.1.is_some()) ==> forall|nc: int, k: int|
            crate::problem::is_num_colors(instance@, nc) && #[trigger] is_ceil_sqrt(2 * nc, k)
                ==> r.1.unwrap().colors@.len() <= min2(
                nc * (crate::reach::grid_height(instance@) - 1),
                2 * crate::reach::grid_height(instance@) + nc + k * crate::reach::grid_height(
                    instance@,
                ),
            ),
{
    let ghost gv = instance@;
    let height = instance.height();
    let num_colors = instance.num_colors();
    let clusters = Cluster::from_problem(instance);
    let num_clusters = if clusters.len() > 65536 {
        65536
    } else {
        clusters.len()
    };
    let optimize = action.use_optimizer();
    let bound = max_moves(num_clusters, height, num_colors);
    let ghost k0 = choose|k: int|
        #[trigger] is_ceil_sqrt(2 * (num_colors as int), k) && bound == min2(
            num_clusters as int,
            min2(
                (num_colors as int) * ((height as int) - 1),
                2 * (height as int) + (num_colors as int) + k * (height as int),
            ),
        );
    proof {
        assert(bound <= 65536);
    }
    let (lo0, hi0) = action.get_bounds(0, bound);
    let mut state = SearchState::init(lo0, hi0);
    let mut last: (Verdict, Option<Solution>) = (Verdict::Unknown, None);
    let mut saw_sat = false;
    while !state.done
        invariant
            instance.wf(),
            gv == instance@,
            height == crate::reach::grid_height(gv),
            crate::problem::is_num_colors(gv, num_colors as int),
            is_ceil_sqrt(2 * (num_colors as int), k0),
            (bound as int) <= min2(
                (num_colors as int) * ((height as int) - 1),
                2 * (height as int) + (num_colors as int) + k0 * (height as int),
            ),
            optimize == (*action matches Action::Opt { .. }),
            ((*action is Min) || (*action is Solve) || (*action matches Action::Opt {
                upper_bound: Option::None,
            })) ==> hi0 == bound,
            *action matches Action::Exact { size } ==> ((!state.done ==> state.lo == size
                && state.hi == size) && (state.best matches Some(s) ==> s.colors@.len() == size)),
            state.hi <= hi0,
            hi0 < 0x1000_0001,
            state.done || state.lo <= state.hi,
            last.1 is None,
            state.best.is_some() ==> state.best.unwrap().colors@.len() <= hi0,
            state.best matches Some(s) ==> decodes_satisfying_assignment(*instance, s),
        decreases (if state.done {
            0int
        } else {
            state.hi - state.lo + 1
        }),
    {
        let t = state.target();
        let st = init_solver(instance, t, optimize);
        let attempt = run_solver(st);
        let sol = attempt.1;
        proof {
            if sol.is_some() {
                let (colors, floods) = choose|colors: Seq<u8>, floods: Seq<Seq<bool>>|
                    colors.len() == st.model.t_max && floods.len() == st.graph.clusters@.len()
                        && #[trigger] st.model.satisfied_by(st.graph, colors, floods)
                        && sol.unwrap().colors@ == colors.subrange(
                        0,
                        crate::model::solution_length(floods, st.model.t_max as int),
                    );
                assert(st.model.satisfied_by(st.graph, colors, floods));
                assert(decodes_satisfying_assignment(*instance, sol.unwrap()));
            }
        }
        if attempt.0 == Verdict::Sat {
            saw_sat = true;
        }
        last = (attempt.0, None);
        state = state.step(t, attempt.0, sol);
    }
    proof {
        if ((*action is Min) || (*action is Solve) || (*action matches Action::Opt {
            upper_bound: Option::None,
        })) && state.best.is_some() {
            assert forall|nc: int, k: int|
                crate::problem::is_num_colors(gv, nc) && #[trigger] is_ceil_sqrt(
                    2 * nc,
                    k,
                ) implies state.best.unwrap().colors@.len() <= min2(
                nc * (crate::reach::grid_height(gv) - 1),
                2 * crate::reach::grid_height(gv) + nc + k * crate::reach::grid_height(gv),
            ) by {
                crate::problem::lemma_num_colors_unique(gv, nc, num_colors as int);
                lemma_ceil_sqrt_unique(2 * nc, k, k0);
            }
        }
    }
    match state.best {
        Some(solution) => (Verdict::Sat, Some(solution)),
        None => if saw_sat {
            // a solvable attempt whose model could not be read off
            (Verdict::Sat, None)
        } else {
            last
        },
    }
}

} // verus!
