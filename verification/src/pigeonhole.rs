//! The pigeonhole family: clauses saying that each of `holes + 1` pigeons
//! sits in some of `holes` holes and that no two pigeons share a hole.  The
//! encoding is unsatisfiable for every size — the classical hard family for
//! this kind of solver — and `lemma_pigeonhole_unsat` proves that in
//! general: together with `solve`'s contract it forces the `Unsat` verdict
//! on every formula embedding the encoding.

use vstd::prelude::*;
use vstd::set_lib::{lemma_int_range, lemma_len_subset, set_int_range};

use crate::solver::dpll::lemma_sat_model_completes;
use crate::types::{
    Clause, Lit, Model, assignment_extends, clause_sat_under, formula_sat, formula_sat_under,
    formula_wf, lit_sat_under,
};

verus! {

/// The variable that says pigeon `p` sits in hole `h`, in the encoding over
/// `holes` holes.
pub open spec fn php_var(holes: int, p: int, h: int) -> int {
    p * holes + h
}

/// Pigeon `p` sits in hole `h` under the total assignment.
pub open spec fn sits(a: Seq<bool>, holes: int, p: int, h: int) -> bool {
    lit_sat_under(a, Lit { var: php_var(holes, p, h) as usize, neg: false })
}

/// The clause placing pigeon `p`: the disjunction, over every hole in
/// order, of the variable putting `p` there.
pub open spec fn is_pigeon_clause(c: Seq<Lit>, holes: int, p: int) -> bool {
    c.len() == holes && forall|h: int|
        0 <= h < holes ==> #[trigger] c[h] == Lit {
            var: php_var(holes, p, h) as usize,
            neg: false,
        }
}

/// The clause forbidding pigeons `p1` and `p2` from sharing hole `h`.
pub open spec fn is_hole_clause(c: Seq<Lit>, holes: int, h: int, p1: int, p2: int) -> bool {
    &&& c.len() == 2
    &&& c[0] == Lit { var: php_var(holes, p1, h) as usize, neg: true }
    &&& c[1] == Lit { var: php_var(holes, p2, h) as usize, neg: true }
}

/// The formula holds pigeon `p`'s placement clause.
pub open spec fn has_pigeon_clause(f: Seq<Clause>, holes: int, p: int) -> bool {
    exists|i: int| 0 <= i < f.len() && is_pigeon_clause((#[trigger] f[i])@, holes, p)
}

/// The formula holds the clause keeping pigeons `p1` and `p2` out of the
/// same hole `h`.
pub open spec fn has_hole_clause(f: Seq<Clause>, holes: int, h: int, p1: int, p2: int) -> bool {
    exists|i: int| 0 <= i < f.len() && is_hole_clause((#[trigger] f[i])@, holes, h, p1, p2)
}

/// The formula embeds the whole encoding for `holes + 1` pigeons in `holes`
/// holes.  It may hold further clauses: those only constrain it more.
pub open spec fn contains_pigeonhole(f: Seq<Clause>, holes: int) -> bool {
    &&& forall|p: int| 0 <= p <= holes ==> #[trigger] has_pigeon_clause(f, holes, p)
    &&& forall|h: int, p1: int, p2: int|
        0 <= h < holes && 0 <= p1 < p2 <= holes
            ==> #[trigger] has_hole_clause(f, holes, h, p1, p2)
}

/// Some hole that pigeon `p` sits in under the assignment, when there is
/// one.
spec fn hole_of(a: Seq<bool>, holes: int, p: int) -> int {
    choose|h: int| 0 <= h < holes && #[trigger] sits(a, holes, p, h)
}

/// More values than targets: a sequence of more than `n` values drawn from
/// `[0, n)` repeats one of them.
proof fn lemma_pigeons_collide(s: Seq<int>, n: int)
    requires
        n >= 0,
        s.len() > n,
        forall|p: int| 0 <= p < s.len() ==> 0 <= #[trigger] s[p] < n,
    ensures
        exists|p1: int, p2: int| 0 <= p1 < p2 < s.len() && s[p1] == s[p2],
{
    if s.no_duplicates() {
        s.unique_seq_to_set();
        assert forall|x: int| s.to_set().contains(x) implies set_int_range(0, n).contains(x) by {
            assert(s.contains(x));
            let p = choose|p: int| 0 <= p < s.len() && s[p] == x;
            assert(0 <= s[p] < n);
        }
        assert(s.to_set().subset_of(set_int_range(0, n)));
        lemma_int_range(0, n);
        lemma_len_subset(s.to_set(), set_int_range(0, n));
        assert(false);
    }
    let (i, j) = choose|i: int, j: int|
        0 <= i < s.len() && 0 <= j < s.len() && i != j && s[i] == s[j];
    if i < j {
        assert(0 <= i < j < s.len() && s[i] == s[j]);
    } else {
        assert(0 <= j < i < s.len() && s[j] == s[i]);
    }
}

/// No total assignment satisfies a formula embedding the pigeonhole
/// encoding: were every pigeon placed, two of the `holes + 1` pigeons would
/// share one of the `holes` holes, and that pair's exclusion clause would
/// be falsified.  By `solve`'s contract, the verdict on such a formula can
/// only be `Unsat`.
pub proof fn lemma_pigeonhole_unsat(f: Seq<Clause>, holes: int)
    requires
        holes >= 1,
        contains_pigeonhole(f, holes),
    ensures
        forall|a: Seq<bool>| !formula_sat_under(a, f),
{
    assert forall|a: Seq<bool>| !formula_sat_under(a, f) by {
        if formula_sat_under(a, f) {
            // Every pigeon's placement clause is satisfied, so every pigeon
            // sits in some hole.
            assert forall|p: int| 0 <= p <= holes implies 0 <= hole_of(a, holes, p) < holes
                && sits(a, holes, p, hole_of(a, holes, p)) by {
                assert(has_pigeon_clause(f, holes, p));
                let i = choose|i: int|
                    0 <= i < f.len() && is_pigeon_clause((#[trigger] f[i])@, holes, p);
                assert(clause_sat_under(a, f[i]@));
                let j = choose|j: int|
                    0 <= j < f[i]@.len() && lit_sat_under(a, #[trigger] f[i]@[j]);
                assert(f[i]@[j] == Lit { var: php_var(holes, p, j) as usize, neg: false });
                assert(sits(a, holes, p, j));
            }
            let s = Seq::new((holes + 1) as nat, |p: int| hole_of(a, holes, p));
            lemma_pigeons_collide(s, holes);
            // Two pigeons share a hole; their exclusion clause cannot be
            // satisfied.
            let (p1, p2) = choose|p1: int, p2: int|
                0 <= p1 < p2 < s.len() && s[p1] == s[p2];
            let h = s[p1];
            assert(sits(a, holes, p1, h));
            assert(sits(a, holes, p2, h));
            assert(has_hole_clause(f, holes, h, p1, p2));
            let i2 = choose|i: int|
                0 <= i < f.len() && is_hole_clause((#[trigger] f[i])@, holes, h, p1, p2);
            assert(clause_sat_under(a, f[i2]@));
            let j2 = choose|j: int|
                0 <= j < f[i2]@.len() && lit_sat_under(a, #[trigger] f[i2]@[j]);
            assert(j2 == 0 || j2 == 1);
            assert(false);
        }
    }
}

/// Not even a partial model satisfies such a formula: it would complete to
/// a satisfying total assignment.  So a `Sat` verdict on it is impossible.
pub proof fn lemma_pigeonhole_no_model(f: Seq<Clause>, holes: int, m: Model)
    requires
        holes >= 1,
        contains_pigeonhole(f, holes),
        formula_wf(f, m.num_vars()),
    ensures
        !formula_sat(m, f),
{
    if formula_sat(m, f) {
        lemma_sat_model_completes(m, f);
        lemma_pigeonhole_unsat(f, holes);
        let a = choose|a: Seq<bool>|
            a.len() == m.num_vars() && assignment_extends(a, m) && formula_sat_under(a, f);
        assert(!formula_sat_under(a, f));
    }
}

} // verus!
