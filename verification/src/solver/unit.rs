//! Unit propagation: repeatedly satisfy clauses whose last undecided literal
//! is forced, until nothing more is forced or a contradiction appears.

use vstd::prelude::*;

use crate::types::{
    Clause, Formula, Lit, Model, Val, Var, assignment_extends, clause_sat_under,
    clause_sat_vals, formula_sat_under, formula_wf, lemma_assignment_extends_assign,
    lemma_assignment_extends_mono,
    lemma_lit_false_blocks, lemma_lit_true_persists, lemma_undef_count_update, lit_sat_under,
    lit_true_vals, model_extends, no_sat_extension, sat_extensions_kept, undef_count,
};

verus! {

broadcast use vstd::seq_lib::lemma_seq_contains_after_push;

/// Every one-literal clause of the formula is already satisfied by the model.
/// Propagation leaves such a state untouched: its seeds have nothing to do.
pub open spec fn units_satisfied(f: Seq<Clause>, m: Model) -> bool {
    forall|i: int|
        0 <= i < f.len() && (#[trigger] f[i])@.len() == 1 ==> m.lit_true(f[i]@[0])
}

/// The literal of some one-literal clause of the formula: what the work queue
/// initially holds.
spec fn is_seed(f: Seq<Clause>, l: Lit) -> bool {
    exists|i: int| 0 <= i < f.len() && (#[trigger] f[i])@.len() == 1 && l == f[i]@[0]
}

/// Any satisfying total assignment that extends the model must make this
/// literal true: assigning it loses no solution.
spec fn forced_lit(f: Seq<Clause>, m: Model, l: Lit) -> bool {
    forall|a: Seq<bool>|
        #[trigger] assignment_extends(a, m) && formula_sat_under(a, f) ==> lit_sat_under(a, l)
}

/// A literal forced at some model stays forced at every extension of it.
proof fn lemma_forced_persists(f: Seq<Clause>, m1: Model, m2: Model, l: Lit)
    requires
        forced_lit(f, m1, l),
        model_extends(m2, m1),
    ensures
        forced_lit(f, m2, l),
{
    assert forall|a: Seq<bool>|
        #[trigger] assignment_extends(a, m2) && formula_sat_under(a, f)
            implies lit_sat_under(a, l) by {
        lemma_assignment_extends_mono(a, m2, m1);
    }
}

/// The initial work queue: the literal of every one-literal clause, in
/// formula order.
pub open spec fn spec_seeds(f: Seq<Clause>) -> Seq<Lit>
    decreases f.len(),
{
    if f.len() == 0 {
        Seq::empty()
    } else {
        let rest = spec_seeds(f.drop_last());
        if f.last()@.len() == 1 {
            rest.push(f.last()@[0])
        } else {
            rest
        }
    }
}

/// The undecided literals of a clause under a value map, in clause order.
pub open spec fn spec_undef_lits(vals: Seq<Val>, c: Seq<Lit>) -> Seq<Lit>
    decreases c.len(),
{
    if c.len() == 0 {
        Seq::empty()
    } else {
        let rest = spec_undef_lits(vals, c.drop_last());
        if vals[c.last().var as int] == Val::Undef {
            rest.push(c.last())
        } else {
            rest
        }
    }
}

/// What the re-examination after an assignment yields, scanning clauses from
/// `ci` on: the lone undecided literal of every newly-unit clause, in clause
/// order — or `None` the moment some unsatisfied clause has no undecided
/// literal left, which is a contradiction.
pub open spec fn spec_rescan(f: Seq<Clause>, vals: Seq<Val>, ci: int) -> Option<Seq<Lit>>
    decreases f.len() - ci,
{
    if ci < 0 || ci >= f.len() {
        Some(Seq::empty())
    } else {
        let c = f[ci]@;
        if clause_sat_vals(vals, c) {
            spec_rescan(f, vals, ci + 1)
        } else {
            let undefs = spec_undef_lits(vals, c);
            if undefs.len() == 0 {
                None
            } else if undefs.len() == 1 {
                match spec_rescan(f, vals, ci + 1) {
                    None => None,
                    Some(rest) => Some(seq![undefs[0]] + rest),
                }
            } else {
                spec_rescan(f, vals, ci + 1)
            }
        }
    }
}

/// One complete run of the propagation loop from queue position `qi`: the
/// final value map, the final trail, and the verdict.  This is the exact
/// computation `unit_propagate` performs, so the function's result is a
/// deterministic function of its input.
pub open spec fn spec_propagate_from(
    f: Seq<Clause>,
    vals: Seq<Val>,
    trail: Seq<Var>,
    queue: Seq<Lit>,
    qi: nat,
) -> (Seq<Val>, Seq<Var>, Result<(), Var>)
    decreases undef_count(vals), queue.len() - qi,
    via spec_propagate_from_decreases
{
    if qi >= queue.len() {
        (vals, trail, Ok(()))
    } else {
        let l = queue[qi as int];
        if l.var < vals.len() && vals[l.var as int] == Val::Undef {
            let val = if l.neg {
                Val::False
            } else {
                Val::True
            };
            let vals2 = vals.update(l.var as int, val);
            let trail2 = trail.push(l.var);
            match spec_rescan(f, vals2, 0) {
                None => (vals2, trail2, Err(l.var)),
                Some(extra) => spec_propagate_from(f, vals2, trail2, queue + extra, qi + 1),
            }
        } else if l.var < vals.len() && !lit_true_vals(vals, l) {
            (vals, trail, Err(l.var))
        } else {
            // satisfied already — or an out-of-range literal, which a
            // well-formed formula never yields: skip it
            spec_propagate_from(f, vals, trail, queue, qi + 1)
        }
    }
}

#[via_fn]
proof fn spec_propagate_from_decreases(
    f: Seq<Clause>,
    vals: Seq<Val>,
    trail: Seq<Var>,
    queue: Seq<Lit>,
    qi: nat,
) {
    if qi < queue.len() {
        let l = queue[qi as int];
        if l.var < vals.len() && vals[l.var as int] == Val::Undef {
            let val = if l.neg {
                Val::False
            } else {
                Val::True
            };
            lemma_undef_count_update(vals, l.var as int, val);
        }
    }
}

/// The exact result of unit propagation on a formula and an entry state:
/// final value map, final trail, and verdict.
pub open spec fn spec_propagate(f: Seq<Clause>, vals: Seq<Val>, trail: Seq<Var>) -> (
    Seq<Val>,
    Seq<Var>,
    Result<(), Var>,
) {
    spec_propagate_from(f, vals, trail, spec_seeds(f), 0)
}

proof fn lemma_spec_propagate_from_extends(
    f: Seq<Clause>,
    vals: Seq<Val>,
    trail: Seq<Var>,
    queue: Seq<Lit>,
    qi: nat,
)
    ensures
        ({
            let r = spec_propagate_from(f, vals, trail, queue, qi);
            r.0.len() == vals.len() && (forall|w: int|
                0 <= w < vals.len() && (#[trigger] vals[w]) != Val::Undef ==> r.0[w] == vals[w])
        }),
    decreases undef_count(vals), queue.len() - qi,
{
    if qi < queue.len() {
        let l = queue[qi as int];
        if l.var < vals.len() && vals[l.var as int] == Val::Undef {
            let val = if l.neg {
                Val::False
            } else {
                Val::True
            };
            let vals2 = vals.update(l.var as int, val);
            lemma_undef_count_update(vals, l.var as int, val);
            match spec_rescan(f, vals2, 0) {
                None => {},
                Some(extra) => {
                    lemma_spec_propagate_from_extends(
                        f,
                        vals2,
                        trail.push(l.var),
                        queue + extra,
                        qi + 1,
                    );
                    let r = spec_propagate_from(f, vals, trail, queue, qi);
                    let r2 = spec_propagate_from(f, vals2, trail.push(l.var), queue + extra, qi + 1);
                    assert(r == r2);
                    assert forall|w: int|
                        0 <= w < vals.len() && (#[trigger] vals[w]) != Val::Undef
                            implies r.0[w] == vals[w] by {
                        assert(vals2[w] == vals[w]);
                        assert(r2.0[w] == vals2[w]);
                    }
                },
            }
        } else if l.var < vals.len() && !lit_true_vals(vals, l) {
        } else {
            lemma_spec_propagate_from_extends(f, vals, trail, queue, qi + 1);
        }
    }
}

/// The value map that propagation yields only extends the one it was given:
/// same length, every decided variable kept.
pub proof fn lemma_spec_propagate_extends(f: Seq<Clause>, vals: Seq<Val>, trail: Seq<Var>)
    ensures
        ({
            let r = spec_propagate(f, vals, trail);
            r.0.len() == vals.len() && (forall|w: int|
                0 <= w < vals.len() && (#[trigger] vals[w]) != Val::Undef ==> r.0[w] == vals[w])
        }),
{
    lemma_spec_propagate_from_extends(f, vals, trail, spec_seeds(f), 0);
}

/// A seed that is still undecided, or falsified, refutes `units_satisfied`
/// for any model that decides no more than the current one.
proof fn lemma_seed_not_true_refutes(f: Seq<Clause>, m: Model, l: Lit)
    requires
        is_seed(f, l),
        !m.lit_true(l),
    ensures
        !units_satisfied(f, m),
{
    let i = choose|i: int| 0 <= i < f.len() && (#[trigger] f[i])@.len() == 1 && l == f[i]@[0];
    assert(f[i]@.len() == 1);
}

/// Performs unit propagation on the formula, mutating the model in place.
///
/// Seeds a work queue with the literal of every one-literal clause, then
/// repeatedly pops: a literal already satisfied is skipped; one whose
/// variable holds the opposing value is a contradiction, `Err` with that
/// variable; an undecided one is assigned its satisfying value, after which
/// every not-yet-satisfied clause is re-examined — a clause with no undecided
/// literal left is a contradiction, one with exactly one is enqueued.
///
/// The contract captures everything the search needs:
/// - the model only grows (`model_extends`, trail prefix);
/// - no satisfying total assignment is lost (`sat_extensions_kept`);
/// - on `Err`, no total assignment extending the initial model satisfies the
///   formula;
/// - on `Ok`, every one-literal clause is satisfied, so a rerun starts with
///   nothing to do; and a run from such a state changes nothing and succeeds.
#[verifier::loop_isolation(false)]
#[verifier::rlimit(100)]
pub fn unit_propagate(formula: &Formula, model: &mut Model) -> (r: Result<(), Var>)
    requires
        old(model).wf(),
        formula_wf(formula@, old(model).num_vars()),
    ensures
        final(model).wf(),
        final(model).num_vars() == old(model).num_vars(),
        model_extends(*final(model), *old(model)),
        old(model).trail@.is_prefix_of(final(model).trail@),
        sat_extensions_kept(formula@, *old(model), *final(model)),
        r is Ok ==> units_satisfied(formula@, *final(model)),
        r is Err ==> no_sat_extension(formula@, *old(model)),
        units_satisfied(formula@, *old(model)) ==> r is Ok
            && final(model).vals@ == old(model).vals@
            && final(model).trail@ == old(model).trail@,
        (final(model).vals@, final(model).trail@, r)
            == spec_propagate(formula@, old(model).vals@, old(model).trail@),
{
    let ghost m0 = *old(model);
    let ghost f = formula@;
    let ghost n = m0.num_vars();

    // Seed the queue with the literal of every one-literal clause.
    let mut queue: Vec<Lit> = Vec::new();
    let mut si: usize = 0;
    proof {
        assert(f.take(0) =~= Seq::<Clause>::empty());
    }
    while si < formula.len()
        invariant
            si <= f.len(),
            queue@ == spec_seeds(f.take(si as int)),
            forall|k: int| 0 <= k < queue@.len() ==> (#[trigger] queue@[k]).var < n,
            forall|k: int| 0 <= k < queue@.len() ==> #[trigger] is_seed(f, queue@[k]),
            forall|i: int|
                0 <= i < si && (#[trigger] f[i])@.len() == 1 ==> queue@.contains(f[i]@[0]),
        decreases f.len() - si,
    {
        let c: &Clause = &formula[si];
        proof {
            assert(f.take(si as int + 1).drop_last() =~= f.take(si as int));
            assert(f.take(si as int + 1).last() == f[si as int]);
        }
        if c.len() == 1 {
            let ghost q_old = queue@;
            let s = c[0];
            proof {
                assert(f[si as int]@.len() == 1 && s == f[si as int]@[0]);
                assert(is_seed(f, s));
            }
            queue.push(s);
            proof {
                assert forall|k: int| 0 <= k < queue@.len()
                    implies #[trigger] is_seed(f, queue@[k]) by {
                    if k < q_old.len() {
                        assert(queue@[k] == q_old[k]);
                        assert(is_seed(f, q_old[k]));
                    } else {
                        assert(queue@[k] == s);
                    }
                }
            }
        }
        si = si + 1;
    }
    let ghost init_len = queue@.len();
    let ghost total = spec_propagate(f, m0.vals@, m0.trail@);

    proof {
        assert(f.take(f.len() as int) =~= f);
        assert(queue@ == spec_seeds(f));
    }

    proof {
        // Every seed is forced: a satisfying assignment must satisfy the
        // one-literal clause it came from, which has no other literal.
        assert forall|k: int| 0 <= k < queue@.len()
            implies forced_lit(f, *model, #[trigger] queue@[k]) by {
            assert(is_seed(f, queue@[k]));
            let i = choose|i: int|
                0 <= i < f.len() && (#[trigger] f[i])@.len() == 1 && queue@[k] == f[i]@[0];
            assert forall|a: Seq<bool>|
                #[trigger] assignment_extends(a, *model) && formula_sat_under(a, f)
                    implies lit_sat_under(a, queue@[k]) by {
                assert(clause_sat_under(a, f[i]@));
                let j = choose|j: int| 0 <= j < f[i]@.len() && lit_sat_under(a, #[trigger] f[i]@[j]);
                assert(j == 0);
            }
        }
    }

    let mut qi: usize = 0;
    while qi < queue.len()
        invariant
            model.wf(),
            model.num_vars() == n,
            model_extends(*model, m0),
            m0.trail@.is_prefix_of(model.trail@),
            sat_extensions_kept(f, m0, *model),
            qi <= queue@.len(),
            init_len <= queue@.len(),
            forall|k: int| 0 <= k < queue@.len() ==> (#[trigger] queue@[k]).var < n,
            forall|k: int| qi <= k < queue@.len() ==> forced_lit(f, *model, #[trigger] queue@[k]),
            forall|k: int| 0 <= k < qi ==> model.lit_true(#[trigger] queue@[k]),
            forall|i: int|
                0 <= i < f.len() && (#[trigger] f[i])@.len() == 1 ==> queue@.contains(f[i]@[0]),
            forall|k: int| 0 <= k < init_len ==> #[trigger] is_seed(f, queue@[k]),
            units_satisfied(f, m0) ==> model.vals@ == m0.vals@ && model.trail@ == m0.trail@
                && queue@.len() == init_len,
            spec_propagate_from(f, model.vals@, model.trail@, queue@, qi as nat) == total,
        decreases undef_count(model.vals@), queue@.len() - qi,
    {
        let ghost vals0 = model.vals@;
        let ghost trail0 = model.trail@;
        let ghost q_at_pop = queue@;
        let lit = queue[qi];
        let v = model.value(lit.var);
        if v == Val::Undef {
            proof {
                // A still-undecided seed refutes the no-op hypothesis: under
                // `units_satisfied(f, m0)` the model is still `m0`, the queue
                // holds only seeds, and every seed is already true.
                if units_satisfied(f, m0) {
                    assert(is_seed(f, queue@[qi as int]));
                    assert(!m0.lit_true(lit));
                    lemma_seed_not_true_refutes(f, m0, lit);
                    assert(false);
                }
            }
            let val = if lit.neg { Val::False } else { Val::True };
            let ghost m_before = *model;
            model.assign(lit.var, val);
            proof {
                lemma_undef_count_update(m_before.vals@, lit.var as int, val);
                assert(model_extends(*model, m_before));
                assert(model.lit_true(lit));
                // The trail prefix survives the push.
                assert(m0.trail@ =~= model.trail@.subrange(0, m0.trail@.len() as int));
                // No solution is lost: a satisfying extension of m0 extends
                // m_before, is forced to satisfy `lit`, hence extends the
                // updated model.
                assert forall|a: Seq<bool>|
                    #[trigger] assignment_extends(a, m0) && formula_sat_under(a, f)
                        implies assignment_extends(a, *model) by {
                    assert(assignment_extends(a, m_before));
                    assert(forced_lit(f, m_before, lit));
                    assert(lit_sat_under(a, lit));
                    lemma_assignment_extends_assign(a, m_before, *model, lit.var as int, val);
                }
                // Pending queue entries stay forced, processed ones stay true.
                assert forall|k: int|
                    qi <= k < queue@.len() implies forced_lit(f, *model, #[trigger] queue@[k]) by {
                    lemma_forced_persists(f, m_before, *model, queue@[k]);
                }
                assert forall|k: int|
                    0 <= k <= qi implies model.lit_true(#[trigger] queue@[k]) by {
                    if k < qi {
                        lemma_lit_true_persists(m_before, *model, queue@[k]);
                    }
                }
            }
            // Re-examine every clause under the grown model.
            let ghost m_cur = *model;
            let ghost q0 = q_at_pop.len() as int;
            proof {
                assert(queue@.take(q0) =~= q_at_pop);
                assert(queue@.skip(q0) =~= Seq::<Lit>::empty());
                match spec_rescan(f, m_cur.vals@, 0) {
                    Some(rest) => {
                        assert(Seq::<Lit>::empty() + rest =~= rest);
                    },
                    None => {},
                }
            }
            let mut ci: usize = 0;
            while ci < formula.len()
                invariant
                    ci <= f.len(),
                    *model == m_cur,
                    qi < queue@.len(),
                    init_len <= queue@.len(),
                    q0 <= queue@.len(),
                    queue@.take(q0) == q_at_pop,
                    (match spec_rescan(f, m_cur.vals@, ci as int) {
                        Some(rest) => spec_rescan(f, m_cur.vals@, 0)
                            == Some(queue@.skip(q0) + rest),
                        None => spec_rescan(f, m_cur.vals@, 0) is None,
                    }),
                    forall|k: int| 0 <= k < queue@.len() ==> (#[trigger] queue@[k]).var < n,
                    forall|k: int|
                        qi <= k < queue@.len() ==> forced_lit(f, *model, #[trigger] queue@[k]),
                    forall|k: int| 0 <= k <= qi ==> model.lit_true(#[trigger] queue@[k]),
                    forall|i: int|
                        0 <= i < f.len() && (#[trigger] f[i])@.len() == 1
                            ==> queue@.contains(f[i]@[0]),
                    forall|k: int| 0 <= k < init_len ==> #[trigger] is_seed(f, queue@[k]),
                decreases f.len() - ci,
            {
                let clause: &Clause = &formula[ci];
                assert(forall|j: int|
                    0 <= j < clause@.len() ==> (#[trigger] clause@[j]).var < model.num_vars());
                if !model.satisfies_clause(clause) {
                    // Count the undecided literals, remembering the first.
                    proof {
                        assert(clause@.take(0) =~= Seq::<Lit>::empty());
                    }
                    let mut undefs: usize = 0;
                    let mut first: Lit = lit;
                    let ghost mut first_idx: int = 0;
                    let mut j: usize = 0;
                    while j < clause.len()
                        invariant
                            j <= clause@.len(),
                            undefs <= j,
                            undefs as int == spec_undef_lits(m_cur.vals@, clause@.take(
                                j as int,
                            )).len(),
                            undefs >= 1 ==> first == spec_undef_lits(m_cur.vals@, clause@.take(
                                j as int,
                            ))[0],
                            undefs == 0 ==> forall|k: int|
                                0 <= k < j
                                    ==> model.vals@[(#[trigger] clause@[k]).var as int]
                                        != Val::Undef,
                            undefs == 1 ==> 0 <= first_idx < j
                                && model.vals@[clause@[first_idx].var as int] == Val::Undef
                                && first == clause@[first_idx]
                                && forall|k: int|
                                    0 <= k < j && k != first_idx
                                        ==> model.vals@[(#[trigger] clause@[k]).var as int]
                                            != Val::Undef,
                        decreases clause@.len() - j,
                    {
                        let l = clause[j];
                        proof {
                            assert(clause@.take(j as int + 1).drop_last() =~= clause@.take(
                                j as int,
                            ));
                            assert(clause@.take(j as int + 1).last() == clause@[j as int]);
                        }
                        if model.value(l.var) == Val::Undef {
                            if undefs == 0 {
                                first = l;
                                proof {
                                    first_idx = j as int;
                                }
                            }
                            undefs = undefs + 1;
                        }
                        j = j + 1;
                    }
                    proof {
                        assert(clause@.take(j as int) =~= clause@);
                    }
                    if undefs == 0 {
                        // The clause is falsified outright: no extension of
                        // the current model — and so none of m0 — satisfies
                        // the formula, and the spec computation ends here too.
                        proof {
                            assert forall|a: Seq<bool>| #[trigger] assignment_extends(a, m0)
                                implies !formula_sat_under(a, f) by {
                                if formula_sat_under(a, f) {
                                    assert(assignment_extends(a, *model));
                                    assert(clause_sat_under(a, f[ci as int]@));
                                    let k = choose|k: int|
                                        0 <= k < clause@.len()
                                            && lit_sat_under(a, #[trigger] clause@[k]);
                                    assert(!model.lit_true(clause@[k]));
                                    assert(model.lit_false(clause@[k]));
                                    lemma_lit_false_blocks(a, *model, clause@[k]);
                                }
                            }
                            assert(spec_rescan(f, m_cur.vals@, ci as int) is None);
                            assert(total == (m_cur.vals@, m_cur.trail@, Err::<(), Var>(lit.var)));
                        }
                        return Err(lit.var);
                    }
                    if undefs == 1 {
                        // A newly-unit clause: its lone undecided literal is
                        // forced, because every other literal is falsified.
                        proof {
                            assert forall|a: Seq<bool>|
                                #[trigger] assignment_extends(a, *model)
                                    && formula_sat_under(a, f)
                                    implies lit_sat_under(a, first) by {
                                assert(clause_sat_under(a, f[ci as int]@));
                                let k = choose|k: int|
                                    0 <= k < clause@.len()
                                        && lit_sat_under(a, #[trigger] clause@[k]);
                                if k != first_idx {
                                    assert(!model.lit_true(clause@[k]));
                                    assert(model.lit_false(clause@[k]));
                                    lemma_lit_false_blocks(a, *model, clause@[k]);
                                }
                            }
                            assert(forced_lit(f, *model, first));
                        }
                        let ghost q_old = queue@;
                        queue.push(first);
                        proof {
                            assert forall|k: int| 0 <= k < init_len
                                implies #[trigger] is_seed(f, queue@[k]) by {
                                assert(queue@[k] == q_old[k]);
                                assert(is_seed(f, q_old[k]));
                            }
                            assert forall|k: int| 0 <= k < q0 implies queue@.take(q0)[k]
                                == q_at_pop[k] by {
                                assert(queue@[k] == q_old[k]);
                                assert(q_old.take(q0)[k] == q_old[k]);
                            }
                            assert(queue@.take(q0) =~= q_at_pop);
                            assert(queue@.skip(q0) =~= q_old.skip(q0).push(first));
                            match spec_rescan(f, m_cur.vals@, ci as int + 1) {
                                Some(rest2) => {
                                    assert(spec_rescan(f, m_cur.vals@, ci as int)
                                        == Some(seq![first] + rest2));
                                    assert(q_old.skip(q0) + (seq![first] + rest2)
                                        =~= queue@.skip(q0) + rest2);
                                },
                                None => {
                                    assert(spec_rescan(f, m_cur.vals@, ci as int) is None);
                                },
                            }
                        }
                    } else {
                        // Two or more undecided literals: nothing is forced
                        // by this clause yet.
                        proof {
                            assert(spec_rescan(f, m_cur.vals@, ci as int) == spec_rescan(
                                f,
                                m_cur.vals@,
                                ci as int + 1,
                            ));
                        }
                    }
                } else {
                    // The clause already has a true literal: skipped.
                    proof {
                        assert(clause_sat_vals(m_cur.vals@, f[ci as int]@));
                        assert(spec_rescan(f, m_cur.vals@, ci as int) == spec_rescan(
                            f,
                            m_cur.vals@,
                            ci as int + 1,
                        ));
                    }
                }
                ci = ci + 1;
            }
            proof {
                // The rescan is done: the queue grew by exactly what the
                // spec-level rescan yields, so one spec step has happened.
                assert(spec_rescan(f, m_cur.vals@, f.len() as int) == Some(Seq::<Lit>::empty()));
                assert(queue@.skip(q0) + Seq::<Lit>::empty() =~= queue@.skip(q0));
                assert(spec_rescan(f, m_cur.vals@, 0) == Some(queue@.skip(q0)));
                assert forall|k: int| 0 <= k < q0 implies queue@[k] == q_at_pop[k] by {
                    assert(queue@.take(q0)[k] == queue@[k]);
                }
                assert(q_at_pop + queue@.skip(q0) =~= queue@);
                assert(spec_propagate_from(f, vals0, trail0, q_at_pop, qi as nat)
                    == spec_propagate_from(f, m_cur.vals@, m_cur.trail@, queue@, (qi + 1) as nat));
            }
            qi = qi + 1;
        } else {
            let sat = model.is_true(lit);
            if !sat {
                // The variable already holds the opposing value, yet the
                // literal is forced: this branch of the search is exhausted.
                proof {
                    assert(model.lit_false(lit));
                    assert forall|a: Seq<bool>| #[trigger] assignment_extends(a, m0)
                        implies !formula_sat_under(a, f) by {
                        if formula_sat_under(a, f) {
                            assert(assignment_extends(a, *model));
                            assert(forced_lit(f, *model, queue@[qi as int]));
                            assert(lit_sat_under(a, lit));
                            lemma_lit_false_blocks(a, *model, lit);
                        }
                    }
                    // Refute the no-op hypothesis: a seed cannot be falsified
                    // when every seed was satisfied at entry.
                    if units_satisfied(f, m0) {
                        assert(is_seed(f, queue@[qi as int]));
                        assert(!m0.lit_true(lit));
                        lemma_seed_not_true_refutes(f, m0, lit);
                        assert(false);
                    }
                    // The spec computation ends here too.
                    assert(!lit_true_vals(vals0, lit));
                    assert(total == (vals0, trail0, Err::<(), Var>(lit.var)));
                }
                return Err(lit.var);
            }
            proof {
                // An already-satisfied literal: the spec step skips it too.
                assert(lit_true_vals(vals0, lit));
                assert(spec_propagate_from(f, vals0, trail0, q_at_pop, qi as nat)
                    == spec_propagate_from(f, vals0, trail0, q_at_pop, (qi + 1) as nat));
            }
            qi = qi + 1;
        }
    }
    proof {
        assert(spec_propagate_from(f, model.vals@, model.trail@, queue@, qi as nat)
            == (model.vals@, model.trail@, Ok::<(), Var>(())));
    }
    proof {
        // The queue has been drained: every one-literal clause's literal was
        // either found satisfied or has been assigned, so all are true now.
        assert forall|i: int|
            0 <= i < f.len() && (#[trigger] f[i])@.len() == 1
                implies model.lit_true(f[i]@[0]) by {
            let s = f[i]@[0];
            assert(queue@.contains(s));
            let k = choose|k: int| 0 <= k < queue@.len() && queue@[k] == s;
            assert(model.lit_true(queue@[k]));
        }
    }
    Ok(())
}

} // verus!
