//! The solver adapter: the single boundary to the external SAT engine.

use vstd::prelude::*;
use varisat::ExtendFormula;
use crate::formula::formula_sat;
use crate::formula::vars_ok;
use crate::formula::Lit;

verus! {

/// Relies on varisat's `Solver`: `add_clause` loads each clause and
/// `solve` decides satisfiability of the loaded clause set, a verdict
/// that depends on the clause list alone.  When `solve` has returned
/// true, `model` is a set of literals over the clauses' variables that
/// satisfies every added clause; the result maps each variable index
/// below 729 to its polarity in that model, and a variable the model
/// leaves out stays false, which cannot falsify a satisfied clause.
/// When `solve` has returned false, the clause set is unsatisfiable: no
/// assignment of the variables meets every clause.  `solve` is
/// unwrapped as the engine reports a failure only when proof output is
/// configured, which it is not here.
#[verifier::external_body]
pub(crate) fn run_sat_solver(clauses: &Vec<Vec<Lit>>) -> (r: Option<Vec<bool>>)
    requires
        vars_ok(clauses@),
    ensures
        r matches Some(m) ==> m@.len() == 729 && formula_sat(m@, clauses@),
        r is None ==> !(exists|m: Seq<bool>| m.len() == 729 && #[trigger] formula_sat(m, clauses@)),
{
    let mut solver = varisat::Solver::new();
    for c in clauses {
        let lits: Vec<varisat::Lit> =
            c.iter().map(|l| varisat::Lit::from_index(l.var, l.positive)).collect();
        solver.add_clause(&lits);
    }
    if !solver.solve().unwrap() {
        return None;
    }
    let mut out = vec![false; 729];
    for l in solver.model().unwrap() {
        out[l.var().index()] = l.is_positive();
    }
    Some(out)
}

} // verus!
