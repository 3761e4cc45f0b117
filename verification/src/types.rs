//! Core data types: variables, literals, clauses, formulas, and the
//! assignment state (`Model`), together with the specification functions that
//! the solver's contracts are stated over.

use vstd::prelude::*;

verus! {

/// A propositional variable: a dense index in `[0, num_vars)`.
pub type Var = usize;

/// A literal: a variable together with a polarity.  `neg == false` stands for
/// the variable itself, `neg == true` for its negation.
#[derive(Copy, Clone)]
pub struct Lit {
    /// The variable this literal refers to.
    pub var: Var,
    /// Whether this literal is negated.
    pub neg: bool,
}

/// A clause: the disjunction of its literals.  An empty clause is
/// unconditionally false.
pub type Clause = Vec<Lit>;

/// A formula in conjunctive normal form: the conjunction of its clauses.  An
/// empty formula is trivially satisfiable.
pub type Formula = Vec<Clause>;

/// The truth value a variable holds in a model.
#[derive(Copy, Clone, PartialEq, Eq, Structural, Debug)]
pub enum Val {
    /// The variable is assigned true.
    True,
    /// The variable is assigned false.
    False,
    /// The variable is not yet assigned.
    Undef,
}

/// A partial assignment: a truth value for every variable, plus the trail of
/// variables in the order they were assigned.
///
/// In a successful final model, `Undef` means "unconstrained", not "false":
/// the variable appears in no clause that still needed it.
#[derive(Debug, PartialEq)]
pub struct Model {
    /// Current truth value of each variable.
    pub vals: Vec<Val>,
    /// The variables that have been assigned, in assignment order.
    pub trail: Vec<Var>,
}

impl Model {
    /// Number of variables the model covers.
    pub open spec fn num_vars(&self) -> nat {
        self.vals@.len()
    }

    /// The value the model holds for variable `v`.
    pub open spec fn spec_value(&self, v: int) -> Val {
        self.vals@[v]
    }

    /// The literal holds under this model: positive with its variable `True`,
    /// or negated with its variable `False`.
    pub open spec fn lit_true(&self, l: Lit) -> bool {
        lit_true_vals(self.vals@, l)
    }

    /// The literal is falsified by this model.
    pub open spec fn lit_false(&self, l: Lit) -> bool {
        lit_false_vals(self.vals@, l)
    }

    /// The trail invariant: every trail entry is an in-range variable that
    /// holds a decided value, no variable appears twice, and every decided
    /// variable is on the trail.
    pub open spec fn wf(&self) -> bool {
        &&& forall|k: int|
            0 <= k < self.trail@.len() ==> (#[trigger] self.trail@[k]) < self.vals@.len()
                && self.vals@[self.trail@[k] as int] != Val::Undef
        &&& forall|k1: int, k2: int|
            0 <= k1 < k2 < self.trail@.len() ==> self.trail@[k1] != self.trail@[k2]
        &&& forall|v: int|
            0 <= v < self.vals@.len() && (#[trigger] self.vals@[v]) != Val::Undef
                ==> self.trail@.contains(v as Var)
    }
}

/// Number of `Undef` entries in a value sequence; the solver's termination
/// measure.
pub open spec fn undef_count(vals: Seq<Val>) -> nat
    decreases vals.len(),
{
    if vals.len() == 0 {
        0
    } else {
        undef_count(vals.drop_last()) + if vals.last() == Val::Undef {
            1nat
        } else {
            0nat
        }
    }
}

/// `m2` agrees with every value `m1` has decided (and may decide more).
pub open spec fn model_extends(m2: Model, m1: Model) -> bool {
    &&& m2.vals@.len() == m1.vals@.len()
    &&& forall|v: int|
        0 <= v < m1.vals@.len() && (#[trigger] m1.vals@[v]) != Val::Undef
            ==> m2.vals@[v] == m1.vals@[v]
}

/// Every literal of every clause refers to a variable below `n`.
pub open spec fn formula_wf(f: Seq<Clause>, n: nat) -> bool {
    forall|i: int, j: int|
        0 <= i < f.len() && 0 <= j < f[i]@.len() ==> (#[trigger] f[i]@[j]).var < n
}

/// The literal holds under a bare value map: positive with its variable
/// `True`, or negated with its variable `False`.
pub open spec fn lit_true_vals(vals: Seq<Val>, l: Lit) -> bool {
    if l.neg {
        vals[l.var as int] == Val::False
    } else {
        vals[l.var as int] == Val::True
    }
}

/// The literal is falsified under a bare value map.
pub open spec fn lit_false_vals(vals: Seq<Val>, l: Lit) -> bool {
    if l.neg {
        vals[l.var as int] == Val::True
    } else {
        vals[l.var as int] == Val::False
    }
}

/// The clause has a literal that holds under the value map.
pub open spec fn clause_sat_vals(vals: Seq<Val>, c: Seq<Lit>) -> bool {
    exists|j: int| 0 <= j < c.len() && lit_true_vals(vals, #[trigger] c[j])
}

/// Every clause of the formula has a literal that holds under the value map.
pub open spec fn formula_sat_vals(vals: Seq<Val>, f: Seq<Clause>) -> bool {
    forall|i: int| 0 <= i < f.len() ==> clause_sat_vals(vals, (#[trigger] f[i])@)
}

/// The clause has a literal that holds under the model.
pub open spec fn clause_sat(m: Model, c: Seq<Lit>) -> bool {
    clause_sat_vals(m.vals@, c)
}

/// Every clause of the formula has a literal that holds under the model.
pub open spec fn formula_sat(m: Model, f: Seq<Clause>) -> bool {
    formula_sat_vals(m.vals@, f)
}

/// A total assignment `a` (one boolean per variable) makes the literal true.
pub open spec fn lit_sat_under(a: Seq<bool>, l: Lit) -> bool {
    if l.neg {
        !a[l.var as int]
    } else {
        a[l.var as int]
    }
}

/// The total assignment satisfies the clause.
pub open spec fn clause_sat_under(a: Seq<bool>, c: Seq<Lit>) -> bool {
    exists|j: int| 0 <= j < c.len() && lit_sat_under(a, #[trigger] c[j])
}

/// The total assignment satisfies every clause of the formula.
pub open spec fn formula_sat_under(a: Seq<bool>, f: Seq<Clause>) -> bool {
    forall|i: int| 0 <= i < f.len() ==> clause_sat_under(a, (#[trigger] f[i])@)
}

/// The total assignment agrees with every value the model has decided.
pub open spec fn assignment_extends(a: Seq<bool>, m: Model) -> bool {
    &&& a.len() == m.vals@.len()
    &&& forall|v: int|
        0 <= v < m.vals@.len() && (#[trigger] m.vals@[v]) == Val::True ==> a[v]
    &&& forall|v: int|
        0 <= v < m.vals@.len() && (#[trigger] m.vals@[v]) == Val::False ==> !a[v]
}

/// No total assignment that extends the model satisfies the formula: this
/// search node is exhausted.
pub open spec fn no_sat_extension(f: Seq<Clause>, m: Model) -> bool {
    forall|a: Seq<bool>| #[trigger] assignment_extends(a, m) ==> !formula_sat_under(a, f)
}

/// Going from `m1` to `m2` lost no solution: every satisfying total
/// assignment that extends `m1` extends `m2` as well.
pub open spec fn sat_extensions_kept(f: Seq<Clause>, m1: Model, m2: Model) -> bool {
    forall|a: Seq<bool>|
        #[trigger] assignment_extends(a, m1) && formula_sat_under(a, f)
            ==> assignment_extends(a, m2)
}

/// A total assignment that agrees with an extended model agrees with the
/// model it extends.
pub proof fn lemma_assignment_extends_mono(a: Seq<bool>, m2: Model, m1: Model)
    requires
        assignment_extends(a, m2),
        model_extends(m2, m1),
    ensures
        assignment_extends(a, m1),
{
    assert forall|v: int|
        0 <= v < m1.vals@.len() && (#[trigger] m1.vals@[v]) == Val::True implies a[v] by {
        assert(m2.vals@[v] == m1.vals@[v]);
    }
    assert forall|v: int|
        0 <= v < m1.vals@.len() && (#[trigger] m1.vals@[v]) == Val::False implies !a[v] by {
        assert(m2.vals@[v] == m1.vals@[v]);
    }
}

/// Sequence prefixes chain: a prefix of a prefix is a prefix.
pub proof fn lemma_prefix_trans<T>(p: Seq<T>, q: Seq<T>, r: Seq<T>)
    requires
        p.is_prefix_of(q),
        q.is_prefix_of(r),
    ensures
        p.is_prefix_of(r),
{
    assert forall|k: int| 0 <= k < p.len() implies r.subrange(0, p.len() as int)[k] == p[k] by {
        assert(q.subrange(0, p.len() as int)[k] == q[k]);
        assert(r.subrange(0, q.len() as int)[k] == r[k]);
    }
    assert(p =~= r.subrange(0, p.len() as int));
}

/// Pushing onto a sequence keeps every prefix it had.
pub proof fn lemma_prefix_push<T>(p: Seq<T>, q: Seq<T>, x: T)
    requires
        p.is_prefix_of(q),
    ensures
        p.is_prefix_of(q.push(x)),
{
    assert forall|k: int| 0 <= k < p.len() implies q.push(x).subrange(0, p.len() as int)[k]
        == p[k] by {
        assert(q.subrange(0, p.len() as int)[k] == q[k]);
    }
    assert(p =~= q.push(x).subrange(0, p.len() as int));
}

/// Model extension is transitive.
pub proof fn lemma_model_extends_trans(m3: Model, m2: Model, m1: Model)
    requires
        model_extends(m3, m2),
        model_extends(m2, m1),
    ensures
        model_extends(m3, m1),
{
}

/// A satisfied literal stays satisfied when the model is extended.
pub proof fn lemma_lit_true_persists(m1: Model, m2: Model, l: Lit)
    requires
        model_extends(m2, m1),
        l.var < m1.num_vars(),
        m1.lit_true(l),
    ensures
        m2.lit_true(l),
{
}

/// A total assignment that agrees with the model falsifies every literal the
/// model falsifies.
pub proof fn lemma_lit_false_blocks(a: Seq<bool>, m: Model, l: Lit)
    requires
        assignment_extends(a, m),
        l.var < m.num_vars(),
        m.lit_false(l),
    ensures
        !lit_sat_under(a, l),
{
}

/// A total assignment that agrees with the model satisfies every literal the
/// model satisfies.
pub proof fn lemma_lit_true_carries(a: Seq<bool>, m: Model, l: Lit)
    requires
        assignment_extends(a, m),
        l.var < m.num_vars(),
        m.lit_true(l),
    ensures
        lit_sat_under(a, l),
{
}

/// A total assignment that agrees with a model, and with the value a
/// decision gives one more variable, agrees with the decided model.
pub proof fn lemma_assignment_extends_assign(a: Seq<bool>, m1: Model, m2: Model, v: int, val: Val)
    requires
        assignment_extends(a, m1),
        0 <= v < m1.vals@.len(),
        m2.vals@ == m1.vals@.update(v, val),
        val == Val::True ==> a[v],
        val == Val::False ==> !a[v],
    ensures
        assignment_extends(a, m2),
{
    assert forall|w: int|
        0 <= w < m2.vals@.len() && (#[trigger] m2.vals@[w]) == Val::True implies a[w] by {
        if w != v {
            assert(m1.vals@[w] == Val::True);
        }
    }
    assert forall|w: int|
        0 <= w < m2.vals@.len() && (#[trigger] m2.vals@[w]) == Val::False implies !a[w] by {
        if w != v {
            assert(m1.vals@[w] == Val::False);
        }
    }
}

/// A model extension can only shrink the number of undecided variables.
pub proof fn lemma_undef_count_le(v1: Seq<Val>, v2: Seq<Val>)
    requires
        v1.len() == v2.len(),
        forall|i: int| 0 <= i < v1.len() && (#[trigger] v1[i]) != Val::Undef ==> v2[i] == v1[i],
    ensures
        undef_count(v2) <= undef_count(v1),
    decreases v1.len(),
{
    if v1.len() > 0 {
        lemma_undef_count_le(v1.drop_last(), v2.drop_last());
    }
}

/// Deciding one undecided variable lowers the count of undecided variables by
/// exactly one.
pub proof fn lemma_undef_count_update(v: Seq<Val>, i: int, x: Val)
    requires
        0 <= i < v.len(),
        v[i] == Val::Undef,
        x != Val::Undef,
    ensures
        undef_count(v.update(i, x)) + 1 == undef_count(v),
    decreases v.len(),
{
    let u = v.update(i, x);
    if i == v.len() - 1 {
        assert(u.drop_last() =~= v.drop_last());
    } else {
        assert(u.drop_last() =~= v.drop_last().update(i, x));
        lemma_undef_count_update(v.drop_last(), i, x);
    }
}

impl Model {
    /// Creates a model for `n` variables, all initially `Undef`, with an
    /// empty trail.
    pub fn new(n: usize) -> (m: Model)
        ensures
            m.wf(),
            m.num_vars() == n,
            forall|v: int| 0 <= v < n ==> m.vals@[v] == Val::Undef,
            m.trail@.len() == 0,
    {
        let mut vals: Vec<Val> = Vec::new();
        let mut i: usize = 0;
        while i < n
            invariant
                i <= n,
                vals@.len() == i,
                forall|v: int| 0 <= v < i ==> vals@[v] == Val::Undef,
            decreases n - i,
        {
            vals.push(Val::Undef);
            i = i + 1;
        }
        Model { vals, trail: Vec::new() }
    }

    /// The current truth value of variable `v`.
    pub fn value(&self, v: Var) -> (r: Val)
        requires
            v < self.num_vars(),
        ensures
            r == self.spec_value(v as int),
    {
        self.vals[v]
    }

    /// Records `val` for the undecided variable `v` and appends `v` to the
    /// trail.  Callers must never re-assign a decided variable.
    pub fn assign(&mut self, v: Var, val: Val)
        requires
            old(self).wf(),
            v < old(self).num_vars(),
            old(self).spec_value(v as int) == Val::Undef,
            val != Val::Undef,
        ensures
            final(self).wf(),
            final(self).vals@ == old(self).vals@.update(v as int, val),
            final(self).trail@ == old(self).trail@.push(v),
    {
        self.vals[v] = val;
        self.trail.push(v);
        proof {
            assert forall|w: int|
                0 <= w < self.vals@.len() && (#[trigger] self.vals@[w]) != Val::Undef
                    implies self.trail@.contains(w as Var) by {
                if w == v as int {
                    assert(self.trail@[self.trail@.len() - 1] == v);
                } else {
                    assert(old(self).vals@[w] != Val::Undef);
                    let k = choose|k: int| 0 <= k < old(self).trail@.len() && old(self).trail@[k] == w as Var;
                    assert(self.trail@[k] == w as Var);
                }
            }
        }
    }

    /// A deep copy of the value mapping and the trail, used once per branch
    /// attempt so that the two hypothetical futures cannot clobber each
    /// other.
    pub fn clone(&self) -> (m: Model)
        ensures
            m.vals@ == self.vals@,
            m.trail@ == self.trail@,
    {
        let mut vals: Vec<Val> = Vec::new();
        let mut i: usize = 0;
        while i < self.vals.len()
            invariant
                i <= self.vals@.len(),
                vals@.len() == i,
                forall|k: int| 0 <= k < i ==> vals@[k] == self.vals@[k],
            decreases self.vals@.len() - i,
        {
            vals.push(self.vals[i]);
            i = i + 1;
        }
        let mut trail: Vec<Var> = Vec::new();
        let mut j: usize = 0;
        while j < self.trail.len()
            invariant
                j <= self.trail@.len(),
                trail@.len() == j,
                forall|k: int| 0 <= k < j ==> trail@[k] == self.trail@[k],
            decreases self.trail@.len() - j,
        {
            trail.push(self.trail[j]);
            j = j + 1;
        }
        proof {
            assert(vals@ =~= self.vals@);
            assert(trail@ =~= self.trail@);
        }
        Model { vals, trail }
    }

    /// Whether the literal is satisfied: positive with its variable `True`,
    /// or negated with its variable `False`.
    pub fn is_true(&self, l: Lit) -> (r: bool)
        requires
            l.var < self.num_vars(),
        ensures
            r == self.lit_true(l),
    {
        match (self.value(l.var), l.neg) {
            (Val::True, false) | (Val::False, true) => true,
            _ => false,
        }
    }

    /// Whether some literal of the clause is satisfied under this model.
    pub(crate) fn satisfies_clause(&self, c: &Clause) -> (r: bool)
        requires
            forall|j: int| 0 <= j < c@.len() ==> (#[trigger] c@[j]).var < self.num_vars(),
        ensures
            r == clause_sat(*self, c@),
    {
        let mut j: usize = 0;
        while j < c.len()
            invariant
                j <= c@.len(),
                forall|k: int| 0 <= k < c@.len() ==> (#[trigger] c@[k]).var < self.num_vars(),
                forall|k: int| 0 <= k < j ==> !self.lit_true(#[trigger] c@[k]),
            decreases c@.len() - j,
        {
            if self.is_true(c[j]) {
                assert(clause_sat(*self, c@));
                return true;
            }
            j = j + 1;
        }
        false
    }
}

} // verus!
