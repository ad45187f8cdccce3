//! Deciding the formula with a SAT solver and reading the answer back.
use vstd::prelude::*;
use varisat::{ExtendFormula, Solver, Var};
use crate::stmt::{DepStmt, views};
use crate::closure::{
    Package, Pkg, PkgV, ResolveError, build_closure, closure_spec, index_views, is_closure, is_root, opt_view,
    pkg_views, resolve_root, root_error,
};
use crate::cnf::{
    clauses_of, cnf_spec, encode, installed_fact, installed_stmt, lemma_all_false_satisfies,
    pairs, satisfies, var_id, var_map, var_of,
};

verus! {

/// The largest variable id that the solver supports.
pub const MAX_VAR: usize = 0x1000_0000;

/// What the solver answered.
pub enum SolveOutcome {
    /// A model: for each variable, the variable or its negation.
    Sat(Vec<i64>),
    Unsat,
    /// The solver gave no definite answer.
    Failed,
}

pub open spec fn ints(m: Seq<i64>) -> Seq<int> {
    m.map_values(|x: i64| x as int)
}

/// The model makes every clause `-a b` true and no literal both true and false.
pub open spec fn model_ok(m: Seq<int>, cs: Seq<(int, int)>) -> bool {
    &&& forall|j: int| 0 <= j < cs.len() ==> m.contains(-(#[trigger] cs[j]).0) || m.contains(cs[j].1)
    &&& forall|x: int| !(m.contains(x) && #[trigger] m.contains(-x))
}

/// The model that the solver gives for a set of clauses `-a b`. The solver
/// is deterministic: its answer depends on the clauses alone.
pub uninterp spec fn solver_model(cs: Seq<(int, int)>) -> Seq<int>;

/// Relies on varisat's `Solver` (`add_clause`, `solve`, `model`): `solve`
/// answers `Ok(true)` when the clauses are satisfiable, and `model` then
/// gives one literal per variable, together satisfying every clause;
/// `Ok(false)` when no assignment satisfies them. `solve` returns `Err` only
/// when a proof writer or processor fails, and none is set up here.
/// Each pair `(a, b)` is added as the clause `-a b`; `Var::from_dimacs`
/// takes ids from 1 up to `MAX_VAR`.
#[verifier::external_body]
fn solve_clauses(clauses: &Vec<(usize, usize)>) -> (r: SolveOutcome)
    requires
        forall|j: int| 0 <= j < clauses@.len() ==> 1 <= (#[trigger] clauses@[j]).0 <= MAX_VAR
            && 1 <= clauses@[j].1 <= MAX_VAR,
    ensures
        !(r is Failed),
        r matches SolveOutcome::Sat(m) ==> ints(m@) == solver_model(pairs(clauses@)) && model_ok(
            ints(m@),
            pairs(clauses@),
        ),
        r matches SolveOutcome::Unsat ==> forall|t: spec_fn(int) -> bool| !satisfies(t, pairs(clauses@)),
{
    let mut solver = Solver::new();
    for &(a, b) in clauses.iter() {
        let lits = [Var::from_dimacs(a as isize).negative(), Var::from_dimacs(b as isize).positive()];
        solver.add_clause(&lits);
    }
    match solver.solve() {
        Ok(true) => SolveOutcome::Sat(
            solver.model().unwrap_or_default().iter().map(|l| l.to_dimacs() as i64).collect(),
        ),
        Ok(false) => SolveOutcome::Unsat,
        Err(_) => SolveOutcome::Failed,
    }
}

/// The (name, version) pairs of the nodes whose installed variable is true in `m`.
pub open spec fn chosen(v: Seq<PkgV>, keys: Seq<(Seq<char>, Seq<char>, Seq<char>)>, m: Seq<int>) -> Seq<(Seq<char>, Seq<char>)>
    decreases v.len(),
{
    if v.len() == 0 {
        Seq::empty()
    } else {
        let pre = chosen(v.drop_last(), keys, m);
        if m.contains(var_id(keys, installed_fact(v.last()))) {
            pre.push((v.last().0, v.last().1))
        } else {
            pre
        }
    }
}

pub open spec fn pair_views(r: Seq<(String, String)>) -> Seq<(Seq<char>, Seq<char>)> {
    r.map_values(|p: (String, String)| (p.0@, p.1@))
}

fn model_has(m: &Vec<i64>, x: usize) -> (r: bool)
    ensures
        r == ints(m@).contains(x as int),
{
    let mut j: usize = 0;
    while j < m.len()
        invariant
            j <= m@.len(),
            forall|k: int| 0 <= k < j ==> m@[k] as int != x as int,
        decreases m@.len() - j,
    {
        if m[j] >= 0 && m[j] as u64 == x as u64 {
            assert(ints(m@)[j as int] == x as int);
            return true;
        }
        j = j + 1;
    }
    proof {
        if ints(m@).contains(x as int) {
            let k = choose|k: int| 0 <= k < ints(m@).len() && ints(m@)[k] == x as int;
            assert(m@[k] as int == x as int);
        }
    }
    false
}

/// Reads the installed packages out of a model.
pub fn interpret(nodes: &Vec<Pkg>, keys: &Vec<DepStmt>, model: &Vec<i64>) -> (r: Vec<(String, String)>)
    requires
        views(keys@) == var_map(pkg_views(nodes@)),
    ensures
        pair_views(r@) == chosen(pkg_views(nodes@), views(keys@), ints(model@)),
{
    let ghost v = pkg_views(nodes@);
    let mut out: Vec<(String, String)> = Vec::new();
    let mut i: usize = 0;
    assert(v.subrange(0, 0) =~= Seq::<PkgV>::empty());
    assert(pair_views(out@) =~= Seq::<(Seq<char>, Seq<char>)>::empty());
    while i < nodes.len()
        invariant
            v == pkg_views(nodes@),
            views(keys@) == var_map(v),
            i <= nodes@.len(),
            pair_views(out@) == chosen(v.subrange(0, i as int), views(keys@), ints(model@)),
        decreases nodes@.len() - i,
    {
        assert(v.subrange(0, i + 1).drop_last() =~= v.subrange(0, i as int));
        assert(v.subrange(0, i + 1).last() == v[i as int]);
        let inst = installed_stmt(&nodes[i]);
        proof {
            crate::cnf::lemma_var_map_has_installed(v, i as int);
        }
        let x = var_of(keys, &inst);
        if model_has(model, x) {
            let ghost before = out@;
            out.push((nodes[i].name.clone(), nodes[i].version.clone()));
            assert(pair_views(out@) =~= pair_views(before).push((v[i as int].0, v[i as int].1)));
        }
        i = i + 1;
    }
    assert(v.subrange(0, i as int) =~= v);
    out
}

/// The answer of a resolution.
pub enum Verdict {
    /// No assignment satisfies the formula.
    Inconsistent,
    /// The (name, version) pairs that the solver's model installs.
    Resolved(Vec<(String, String)>),
}

/// The closure, its formula and the verdict.
pub struct Report {
    pub nodes: Vec<Pkg>,
    pub cnf: String,
    pub verdict: Verdict,
}

/// Resolves `name`, at `version` if one is given, against `index`: chooses
/// the root, builds its closure, encodes it, asks the solver and reads the
/// installed packages from its model.
///
/// The formula holds implications only: no clause forces the root to be
/// installed and none keeps two versions of a name apart. It is therefore
/// always satisfiable (`lemma_all_false_satisfies`), a resolution that
/// reaches the solver never ends `Inconsistent`, and the model may install
/// any set closed under the dependencies, the empty set included.
pub fn resolve(index: &Vec<Package>, name: &String, version: Option<&String>) -> (r: Result<Report, ResolveError>)
    ensures
        match root_error(index_views(index@), name@, opt_view(version)) {
            Some(e) => r == Err::<Report, ResolveError>(e),
            None => r is Err ==> r == Err::<Report, ResolveError>(ResolveError::SolverFailure)
                && exists|root: PkgV|
                is_root(index_views(index@), name@, opt_view(version), root) && var_map(
                    closure_spec(index_views(index@), root),
                ).len() > MAX_VAR,
        },
        r matches Ok(rep) ==> exists|root: PkgV|
            is_root(index_views(index@), name@, opt_view(version), root)
                && pkg_views(rep.nodes@) == closure_spec(index_views(index@), root)
                && is_closure(pkg_views(rep.nodes@), index_views(index@), root)
                && var_map(pkg_views(rep.nodes@)).len() <= MAX_VAR
                && rep.cnf@ == cnf_spec(pkg_views(rep.nodes@))
                && (rep.verdict matches Verdict::Resolved(set) && pair_views(set@) == chosen(
                    pkg_views(rep.nodes@),
                    var_map(pkg_views(rep.nodes@)),
                    solver_model(clauses_of(var_map(pkg_views(rep.nodes@)), pkg_views(rep.nodes@))),
                )),
{
    let root = match resolve_root(index, name, version) {
        Ok(p) => p,
        Err(e) => {
            return Err(e);
        },
    };
    let ghost rootv = root@;
    let nodes = build_closure(index, root);
    let enc = encode(&nodes);
    let cnf = enc.to_dimacs();
    let ghost v = pkg_views(nodes@);
    let ghost cs = pairs(enc.clauses@);
    assert(views(enc.vars@).len() == enc.vars@.len());
    if enc.vars.len() > MAX_VAR {
        return Err(ResolveError::SolverFailure);
    }
    proof {
        crate::cnf::lemma_clause_ids(v);
        assert forall|j: int| 0 <= j < enc.clauses@.len() implies 1 <= (#[trigger] enc.clauses@[j]).0 <= MAX_VAR
            && 1 <= enc.clauses@[j].1 <= MAX_VAR by {
            assert(cs[j] == (enc.clauses@[j].0 as int, enc.clauses@[j].1 as int));
        }
    }
    let outcome = solve_clauses(&enc.clauses);
    match outcome {
        SolveOutcome::Sat(m) => {
            let set = interpret(&nodes, &enc.vars, &m);
            Ok(Report { nodes, cnf, verdict: Verdict::Resolved(set) })
        },
        SolveOutcome::Unsat => {
            proof {
                lemma_all_false_satisfies(cs);
            }
            Ok(Report { nodes, cnf, verdict: Verdict::Inconsistent })
        },
        SolveOutcome::Failed => Err(ResolveError::SolverFailure),
    }
}

} // verus!
