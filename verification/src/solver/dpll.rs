//! The DPLL backtracking search: propagate, test satisfaction, branch on an
//! undecided variable, and backtrack by discarding the failed branch's copy
//! of the assignment state.

use vstd::prelude::*;

use crate::solver::unit::{lemma_spec_propagate_extends, spec_propagate, unit_propagate};
use crate::types::{
    Clause, Formula, Lit, Model, Val, Var, assignment_extends, clause_sat, clause_sat_under,
    clause_sat_vals, formula_sat, formula_sat_under, formula_sat_vals, formula_wf,
    lemma_assignment_extends_assign, lemma_lit_false_blocks, lemma_lit_true_carries,
    lemma_model_extends_trans, lemma_prefix_push, lemma_prefix_trans, lemma_undef_count_le,
    lemma_undef_count_update, lit_sat_under, model_extends, no_sat_extension, undef_count,
};

verus! {

/// The verdict of a solving attempt.
///
/// Every conflict path — one found during propagation or one reached after
/// exhausting both branches — collapses into the single `Unsat` outcome; no
/// diagnostic payload is carried.
#[derive(Debug, PartialEq)]
pub enum SolveResult {
    /// The formula is satisfiable, witnessed by the model.
    Sat(Model),
    /// No assignment satisfies the formula.
    Unsat,
}

/// Whether every clause has at least one literal satisfied under the model.
#[verifier::loop_isolation(false)]
fn is_satisfied(formula: &Formula, model: &Model) -> (r: bool)
    requires
        formula_wf(formula@, model.num_vars()),
    ensures
        r == formula_sat(*model, formula@),
{
    let mut i: usize = 0;
    while i < formula.len()
        invariant
            i <= formula@.len(),
            forall|k: int| 0 <= k < i ==> clause_sat(*model, (#[trigger] formula@[k])@),
        decreases formula@.len() - i,
    {
        let c: &Clause = &formula[i];
        assert(forall|j: int| 0 <= j < c@.len() ==> (#[trigger] c@[j]).var < model.num_vars());
        if !model.satisfies_clause(c) {
            assert(!clause_sat(*model, formula@[i as int]@));
            return false;
        }
        i = i + 1;
    }
    true
}

/// The variable the chooser picks within one clause: that of the first
/// literal whose variable is undecided, scanning literals in clause order.
pub open spec fn spec_choose_in_clause(vals: Seq<Val>, c: Seq<Lit>) -> Option<Var>
    decreases c.len(),
{
    if c.len() == 0 {
        None
    } else if vals[c[0].var as int] == Val::Undef {
        Some(c[0].var)
    } else {
        spec_choose_in_clause(vals, c.skip(1))
    }
}

/// The branch variable the search uses: scanning clauses in formula order
/// and skipping every satisfied clause, the first undecided literal of the
/// first unsatisfied clause that has one; `None` when no unsatisfied clause
/// holds an undecided literal.  This fixed scan order is what makes the
/// search deterministic.
pub open spec fn spec_choose(f: Seq<Clause>, vals: Seq<Val>) -> Option<Var>
    decreases f.len(),
{
    if f.len() == 0 {
        None
    } else if clause_sat_vals(vals, f[0]@) {
        spec_choose(f.skip(1), vals)
    } else {
        match spec_choose_in_clause(vals, f[0]@) {
            Some(v) => Some(v),
            None => spec_choose(f.skip(1), vals),
        }
    }
}

/// The exact search computation: propagate, succeed if every clause is
/// satisfied, fail on a contradiction or when nothing is left to branch on,
/// and otherwise branch on `spec_choose`'s variable — true first, on the
/// states the executable search builds.  `dpll_search` and `solve` return
/// exactly this function of their input, which is what makes the solver
/// deterministic: repeated runs yield bit-identical value maps and trails.
pub open spec fn spec_search(f: Seq<Clause>, vals: Seq<Val>, trail: Seq<Var>) -> Result<
    (Seq<Val>, Seq<Var>),
    (),
>
    decreases undef_count(vals),
    via spec_search_decreases
{
    let p = spec_propagate(f, vals, trail);
    if p.2 is Err {
        Err(())
    } else if formula_sat_vals(p.0, f) {
        Ok((p.0, p.1))
    } else {
        match spec_choose(f, p.0) {
            None => Err(()),
            Some(var) => if var < p.0.len() && p.0[var as int] == Val::Undef {
                match spec_search(f, p.0.update(var as int, Val::True), p.1.push(var)) {
                    Ok(m) => Ok(m),
                    Err(_) => spec_search(f, p.0.update(var as int, Val::False), p.1.push(var)),
                }
            } else {
                // the chooser cannot yield this for a well-formed formula
                Err(())
            },
        }
    }
}

#[via_fn]
proof fn spec_search_decreases(f: Seq<Clause>, vals: Seq<Val>, trail: Seq<Var>) {
    let p = spec_propagate(f, vals, trail);
    lemma_spec_propagate_extends(f, vals, trail);
    lemma_undef_count_le(vals, p.0);
    match spec_choose(f, p.0) {
        None => {},
        Some(var) => {
            if var < p.0.len() && p.0[var as int] == Val::Undef {
                lemma_undef_count_update(p.0, var as int, Val::True);
                lemma_undef_count_update(p.0, var as int, Val::False);
            }
        },
    }
}

/// The exact result of `solve`: the search run from the all-undecided state
/// over `n` variables.
pub open spec fn spec_solve(f: Seq<Clause>, n: nat) -> Result<(Seq<Val>, Seq<Var>), ()> {
    spec_search(f, Seq::new(n, |v: int| Val::Undef), Seq::empty())
}

/// Picks the branch variable: exactly `spec_choose`, the first undecided
/// literal's variable within the first unsatisfied clause that has one,
/// scanning clauses and literals in order.
///
/// `None` means every clause is either satisfied or fully falsified, so
/// there is nothing left to branch on.
#[verifier::loop_isolation(false)]
fn choose_variable(formula: &Formula, model: &Model) -> (r: Option<Var>)
    requires
        formula_wf(formula@, model.num_vars()),
    ensures
        r == spec_choose(formula@, model.vals@),
        match r {
            Some(v) => v < model.num_vars() && model.spec_value(v as int) == Val::Undef,
            None => forall|i: int|
                0 <= i < formula@.len() ==> clause_sat(*model, (#[trigger] formula@[i])@)
                    || (forall|j: int|
                        0 <= j < formula@[i]@.len()
                            ==> model.lit_false(#[trigger] formula@[i]@[j])),
        },
{
    let ghost f = formula@;
    let ghost vals = model.vals@;
    let mut i: usize = 0;
    proof {
        assert(f.skip(0) =~= f);
    }
    while i < formula.len()
        invariant
            i <= formula@.len(),
            spec_choose(f.skip(i as int), vals) == spec_choose(f, vals),
            forall|k: int|
                0 <= k < i ==> clause_sat(*model, (#[trigger] formula@[k])@)
                    || (forall|j: int|
                        0 <= j < formula@[k]@.len()
                            ==> model.lit_false(#[trigger] formula@[k]@[j])),
        decreases formula@.len() - i,
    {
        let clause: &Clause = &formula[i];
        assert(forall|j: int|
            0 <= j < clause@.len() ==> (#[trigger] clause@[j]).var < model.num_vars());
        proof {
            assert(f.skip(i as int)[0] == f[i as int]);
            assert(f.skip(i as int).skip(1) =~= f.skip(i as int + 1));
        }
        if !model.satisfies_clause(clause) {
            proof {
                assert(clause@.skip(0) =~= clause@);
            }
            let mut j: usize = 0;
            while j < clause.len()
                invariant
                    j <= clause@.len(),
                    spec_choose_in_clause(vals, clause@.skip(j as int))
                        == spec_choose_in_clause(vals, clause@),
                    forall|k: int|
                        0 <= k < j
                            ==> model.vals@[(#[trigger] clause@[k]).var as int] != Val::Undef,
                decreases clause@.len() - j,
            {
                let l = clause[j];
                proof {
                    assert(clause@.skip(j as int)[0] == clause@[j as int]);
                    assert(clause@.skip(j as int).skip(1) =~= clause@.skip(j as int + 1));
                }
                if model.value(l.var) == Val::Undef {
                    proof {
                        assert(spec_choose_in_clause(vals, clause@) == Some(l.var));
                        assert(spec_choose(f.skip(i as int), vals) == Some(l.var));
                    }
                    return Some(l.var);
                }
                j = j + 1;
            }
            proof {
                assert(clause@.skip(j as int).len() == 0);
                assert(spec_choose_in_clause(vals, clause@) is None);
            }
            // An unsatisfied clause with no undecided literal: every literal
            // is falsified.
            proof {
                assert forall|jj: int|
                    0 <= jj < clause@.len() implies model.lit_false(#[trigger] clause@[jj]) by {
                    assert(!model.lit_true(clause@[jj]));
                }
            }
        }
        i = i + 1;
    }
    proof {
        assert(f.skip(i as int).len() == 0);
    }
    None
}

/// The recursive search.  On success hands back a well-formed extension of
/// the given state satisfying every clause — exactly the one `spec_search`
/// computes; on failure guarantees that no total assignment extending the
/// given state satisfies the formula.
#[verifier::loop_isolation(false)]
fn dpll_search(formula: &Formula, model: Model) -> (r: Result<Model, ()>)
    requires
        model.wf(),
        formula_wf(formula@, model.num_vars()),
    ensures
        r matches Ok(m) ==> m.wf() && m.num_vars() == model.num_vars()
            && model_extends(m, model) && model.trail@.is_prefix_of(m.trail@)
            && formula_sat(m, formula@)
            && spec_search(formula@, model.vals@, model.trail@) == Ok::<(Seq<Val>, Seq<Var>), ()>(
            (m.vals@, m.trail@),
        ),
        r is Err ==> no_sat_extension(formula@, model)
            && spec_search(formula@, model.vals@, model.trail@) is Err,
    decreases undef_count(model.vals@),
{
    let ghost f = formula@;
    let ghost m_in = model;
    let mut cur = model;

    // Step 1: propagate all forced assignments; a contradiction fails the
    // whole call.
    match unit_propagate(formula, &mut cur) {
        Err(_) => {
            proof {
                assert(spec_search(f, m_in.vals@, m_in.trail@) is Err);
            }
            return Err(());
        },
        Ok(_) => {},
    }
    proof {
        lemma_undef_count_le(m_in.vals@, cur.vals@);
    }

    // Step 2: if every clause is satisfied, the current state is the answer.
    if is_satisfied(formula, &cur) {
        proof {
            assert(spec_search(f, m_in.vals@, m_in.trail@) == Ok::<(Seq<Val>, Seq<Var>), ()>(
                (cur.vals@, cur.trail@),
            ));
        }
        return Ok(cur);
    }

    // Step 3: pick a branch variable; none left means this node is
    // contradictory.
    let chosen = choose_variable(formula, &cur);
    match chosen {
        None => {
            proof {
                assert(spec_search(f, m_in.vals@, m_in.trail@) is Err);
                assert(!formula_sat(cur, f));
                let i = choose|i: int|
                    0 <= i < f.len() && !clause_sat(cur, (#[trigger] f[i])@);
                assert forall|a: Seq<bool>| #[trigger] assignment_extends(a, m_in)
                    implies !formula_sat_under(a, f) by {
                    if formula_sat_under(a, f) {
                        assert(assignment_extends(a, cur));
                        assert(clause_sat_under(a, f[i]@));
                        let j = choose|j: int|
                            0 <= j < f[i]@.len() && lit_sat_under(a, #[trigger] f[i]@[j]);
                        assert(cur.lit_false(f[i]@[j]));
                        lemma_lit_false_blocks(a, cur, f[i]@[j]);
                    }
                }
            }
            return Err(());
        },
        Some(var) => {
            // Step 4: try the variable at true, on a duplicate, so that a
            // failure leaves the current state untouched.
            let ghost m_prop = cur;
            let mut copy = cur.clone();
            copy.assign(var, Val::True);
            proof {
                lemma_undef_count_update(m_prop.vals@, var as int, Val::True);
                assert(model_extends(copy, m_prop));
                assert(m_prop.trail@ =~= m_prop.trail@.subrange(0, m_prop.trail@.len() as int));
                lemma_prefix_push(m_prop.trail@, m_prop.trail@, var);
            }
            let ghost m_true = copy;
            match dpll_search(formula, copy) {
                Ok(m2) => {
                    proof {
                        lemma_model_extends_trans(m2, m_true, m_prop);
                        lemma_model_extends_trans(m2, m_prop, m_in);
                        lemma_prefix_trans(m_prop.trail@, m_true.trail@, m2.trail@);
                        lemma_prefix_trans(m_in.trail@, m_prop.trail@, m2.trail@);
                        assert(spec_search(f, m_in.vals@, m_in.trail@)
                            == Ok::<(Seq<Val>, Seq<Var>), ()>((m2.vals@, m2.trail@)));
                    }
                    return Ok(m2);
                },
                Err(_) => {},
            }
            // Step 5: the true branch is exhausted; try false directly on the
            // current state.
            cur.assign(var, Val::False);
            proof {
                lemma_undef_count_update(m_prop.vals@, var as int, Val::False);
                assert(model_extends(cur, m_prop));
            }
            let ghost m_false = cur;
            match dpll_search(formula, cur) {
                Ok(m3) => {
                    proof {
                        lemma_model_extends_trans(m3, m_false, m_prop);
                        lemma_model_extends_trans(m3, m_prop, m_in);
                        lemma_prefix_trans(m_prop.trail@, m_false.trail@, m3.trail@);
                        lemma_prefix_trans(m_in.trail@, m_prop.trail@, m3.trail@);
                        assert(spec_search(f, m_in.vals@, m_in.trail@)
                            == Ok::<(Seq<Val>, Seq<Var>), ()>((m3.vals@, m3.trail@)));
                    }
                    Ok(m3)
                },
                Err(_) => {
                    // Both branches are exhausted: any satisfying extension
                    // of the entry state would extend the propagated state,
                    // and then one of the two branches — contradiction.
                    proof {
                        assert(spec_search(f, m_in.vals@, m_in.trail@) is Err);
                        assert forall|a: Seq<bool>| #[trigger] assignment_extends(a, m_in)
                            implies !formula_sat_under(a, f) by {
                            if formula_sat_under(a, f) {
                                assert(assignment_extends(a, m_prop));
                                if a[var as int] {
                                    lemma_assignment_extends_assign(
                                        a, m_prop, m_true, var as int, Val::True);
                                    assert(!formula_sat_under(a, f));
                                } else {
                                    lemma_assignment_extends_assign(
                                        a, m_prop, m_false, var as int, Val::False);
                                    assert(!formula_sat_under(a, f));
                                }
                            }
                        }
                    }
                    Err(())
                },
            }
        },
    }
}

/// Decides satisfiability of `formula` over variables `0 .. num_vars`.
///
/// The contract is the solver's full specification:
/// - `Sat(m)`: `m` is a well-formed state over `num_vars` variables under
///   which every clause has a satisfied literal (soundness);
/// - `Unsat`: no total assignment of the `num_vars` variables satisfies the
///   formula (completeness: were there a satisfying assignment, the result
///   would have been `Sat`);
/// - either way the verdict — and on `Sat` the whole value map and trail —
///   equals `spec_solve(formula, num_vars)`, a function of the input alone:
///   repeated runs on the same input return bit-identical results.
pub fn solve(formula: &Formula, num_vars: usize) -> (r: SolveResult)
    requires
        formula_wf(formula@, num_vars as nat),
    ensures
        match r {
            SolveResult::Sat(m) => m.wf() && m.num_vars() == num_vars
                && formula_sat(m, formula@)
                && spec_solve(formula@, num_vars as nat) == Ok::<(Seq<Val>, Seq<Var>), ()>(
                (m.vals@, m.trail@),
            ),
            SolveResult::Unsat => (forall|a: Seq<bool>|
                a.len() == num_vars ==> !formula_sat_under(a, formula@))
                && spec_solve(formula@, num_vars as nat) is Err,
        },
{
    let model = Model::new(num_vars);
    let ghost m0 = model;
    proof {
        assert(m0.vals@ =~= Seq::new(num_vars as nat, |v: int| Val::Undef));
        assert(m0.trail@ =~= Seq::<Var>::empty());
    }
    match dpll_search(formula, model) {
        Ok(m) => SolveResult::Sat(m),
        Err(_) => {
            proof {
                assert forall|a: Seq<bool>| a.len() == num_vars
                    implies !formula_sat_under(a, formula@) by {
                    assert(assignment_extends(a, m0));
                }
            }
            SolveResult::Unsat
        },
    }
}

/// A model that satisfies every clause can be completed to a total
/// assignment that satisfies the formula: `Undef` in a successful model
/// means "unconstrained", so any completion of the decided values works.
/// Together with `solve`'s contract this makes the two verdicts exclusive:
/// a `Sat` answer always has a total witness, and `Unsat` denies every one.
pub proof fn lemma_sat_model_completes(m: Model, f: Seq<Clause>)
    requires
        formula_wf(f, m.num_vars()),
        formula_sat(m, f),
    ensures
        exists|a: Seq<bool>|
            a.len() == m.num_vars() && assignment_extends(a, m) && formula_sat_under(a, f),
{
    let a = Seq::new(m.num_vars(), |v: int| m.vals@[v] == Val::True);
    assert(assignment_extends(a, m));
    assert forall|i: int| 0 <= i < f.len() implies clause_sat_under(a, (#[trigger] f[i])@) by {
        assert(clause_sat(m, f[i]@));
        let j = choose|j: int| 0 <= j < f[i]@.len() && m.lit_true(#[trigger] f[i]@[j]);
        lemma_lit_true_carries(a, m, f[i]@[j]);
        assert(lit_sat_under(a, f[i]@[j]));
    }
    assert(formula_sat_under(a, f));
}

} // verus!
