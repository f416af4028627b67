//! The formula model: literals, clauses, CNF formulas, and the verdict type,
//! together with the mathematical semantics the solver's contracts are stated
//! over (truth of a literal, a clause, a formula; satisfiability; what a
//! partial assignment still allows).

use vstd::prelude::*;

verus! {

/// The three-way satisfiability verdict. `UNKNOWN` is reserved for future
/// time-bounded variants; the solver in this crate always returns `SAT` or
/// `UNSAT`.
#[derive(PartialEq, Eq, Structural, Debug, Clone, Copy)]
pub enum SatResult {
    SAT,
    UNSAT,
    UNKNOWN,
}

/// A literal: a positive value `v` asserts variable `v`, a negative value
/// `-v` asserts its negation. Zero is never a valid literal.
pub type Literal = i32;

/// A clause: the disjunction (OR) of its literals.
pub type OrClause = Vec<Literal>;

/// A formula in conjunctive normal form: the conjunction (AND) of its clauses.
pub type CnfFormula = Vec<OrClause>;

/// A variable identifier; valid identifiers are positive.
pub type Variable = usize;

/// The stored assignment of one variable: positive means true, negative means
/// false, zero means unassigned.
pub type AssignedVariable = i32;

/// The variable a literal speaks about.
pub open spec fn lit_var(l: i32) -> int {
    if l > 0 {
        l as int
    } else {
        -(l as int)
    }
}

/// A well-formed literal over variables `1..=num_vars`: nonzero, magnitude at
/// most `num_vars`.
pub open spec fn lit_wf(l: i32, num_vars: int) -> bool {
    l != 0 && -num_vars <= l && l <= num_vars
}

pub open spec fn clause_wf(c: Seq<i32>, num_vars: int) -> bool {
    forall|j: int| 0 <= j < c.len() ==> lit_wf(#[trigger] c[j], num_vars)
}

pub open spec fn formula_wf(f: Seq<Vec<i32>>, num_vars: int) -> bool {
    forall|i: int| 0 <= i < f.len() ==> clause_wf(#[trigger] f[i]@, num_vars)
}

/// Truth of a literal under a full assignment `a` (indexed by variable;
/// index 0 unused).
pub open spec fn lit_holds(a: Seq<bool>, l: i32) -> bool {
    if l > 0 {
        a[l as int]
    } else {
        !a[-(l as int)]
    }
}

/// Truth of a clause under a full assignment: some literal holds.
pub open spec fn clause_holds(a: Seq<bool>, c: Seq<i32>) -> bool {
    exists|j: int| 0 <= j < c.len() && lit_holds(a, #[trigger] c[j])
}

/// Truth of a whole formula under a full assignment: every clause holds.
pub open spec fn formula_holds(a: Seq<bool>, f: Seq<Vec<i32>>) -> bool {
    forall|i: int| 0 <= i < f.len() ==> clause_holds(a, #[trigger] f[i]@)
}

/// Satisfiability of a formula over variables `1..=num_vars`.
pub open spec fn satisfiable(f: Seq<Vec<i32>>, num_vars: int) -> bool {
    exists|a: Seq<bool>| a.len() == num_vars + 1 && formula_holds(a, f)
}

/// A literal is satisfied by the partial assignment `asgn` (entries `1`,
/// `-1`, `0` for true, false, unassigned).
pub open spec fn lit_sat(asgn: Seq<i32>, l: i32) -> bool {
    if l > 0 {
        asgn[l as int] == 1
    } else {
        asgn[-(l as int)] == -1
    }
}

/// A literal is falsified by the partial assignment: its variable is assigned
/// the opposite polarity.
pub open spec fn lit_falsified(asgn: Seq<i32>, l: i32) -> bool {
    if l > 0 {
        asgn[l as int] == -1
    } else {
        asgn[-(l as int)] == 1
    }
}

/// A clause currently contains a satisfied literal.
pub open spec fn clause_sat(asgn: Seq<i32>, c: Seq<i32>) -> bool {
    exists|j: int| 0 <= j < c.len() && lit_sat(asgn, #[trigger] c[j])
}

/// Every clause of the formula currently contains a satisfied literal.
pub open spec fn formula_sat_under(asgn: Seq<i32>, f: Seq<Vec<i32>>) -> bool {
    forall|i: int| 0 <= i < f.len() ==> clause_sat(asgn, #[trigger] f[i]@)
}

/// A clause mentions a literal.
pub open spec fn clause_contains(c: Seq<i32>, l: i32) -> bool {
    exists|j: int| 0 <= j < c.len() && #[trigger] c[j] == l
}

/// A clause mentions a variable, in either polarity.
pub open spec fn clause_has_var(c: Seq<i32>, v: int) -> bool {
    exists|j: int| 0 <= j < c.len() && lit_var(#[trigger] c[j]) == v
}

/// A full assignment agrees with a partial one on every assigned variable.
pub open spec fn respects(a: Seq<bool>, asgn: Seq<i32>) -> bool {
    forall|v: int|
        1 <= v < asgn.len() ==> ((#[trigger] asgn[v]) == 1 ==> a[v]) && (asgn[v] == -1 ==> !a[v])
}

/// The formula can still be satisfied by some full assignment that agrees
/// with the partial assignment `asgn`. This is the quantity the search
/// preserves: a branch is abandoned exactly when it no longer holds.
pub open spec fn extendable(asgn: Seq<i32>, f: Seq<Vec<i32>>, num_vars: int) -> bool {
    exists|a: Seq<bool>|
        a.len() == num_vars + 1 && respects(a, asgn) && formula_holds(a, f)
}

/// How many of the variables `1..=n` are unassigned.
pub open spec fn count_unassigned(asgn: Seq<i32>, n: int) -> int
    decreases n,
{
    if n <= 0 {
        0
    } else {
        count_unassigned(asgn, n - 1) + if asgn[n] == 0 {
            1int
        } else {
            0int
        }
    }
}

/// The full assignment read off a fully assigned partial assignment.
pub open spec fn to_full(asgn: Seq<i32>) -> Seq<bool> {
    Seq::new(asgn.len(), |v: int| asgn[v] == 1)
}

/// With no variable assigned yet, what a partial assignment still allows is
/// plain satisfiability, so the solver's verdict contract speaks about the
/// formula itself when solving starts from a freshly built solver.
pub proof fn lemma_unconstrained_extendable(asgn: Seq<i32>, f: Seq<Vec<i32>>, num_vars: int)
    requires
        asgn.len() == num_vars + 1,
        forall|v: int| 0 <= v <= num_vars ==> #[trigger] asgn[v] == 0,
    ensures
        extendable(asgn, f, num_vars) == satisfiable(f, num_vars),
{
    if satisfiable(f, num_vars) {
        let a = choose|a: Seq<bool>| a.len() == num_vars + 1 && formula_holds(a, f);
        assert(respects(a, asgn));
        assert(extendable(asgn, f, num_vars));
    }
    if extendable(asgn, f, num_vars) {
        let a = choose|a: Seq<bool>|
            a.len() == num_vars + 1 && respects(a, asgn) && formula_holds(a, f);
        assert(satisfiable(f, num_vars));
    }
}

/// How many times the literal `l` occurs in the clause.
pub open spec fn count_lit_in_clause(c: Seq<i32>, l: i32) -> int
    decreases c.len(),
{
    if c.len() <= 0 {
        0
    } else {
        count_lit_in_clause(c.drop_last(), l) + if c.last() == l {
            1int
        } else {
            0int
        }
    }
}

/// How many times the literal `l` occurs in the whole formula.
pub open spec fn count_lit(f: Seq<Vec<i32>>, l: i32) -> int
    decreases f.len(),
{
    if f.len() <= 0 {
        0
    } else {
        count_lit(f.drop_last(), l) + count_lit_in_clause(f.last()@, l)
    }
}

/// `n`, capped at `cap`.
pub open spec fn capped(n: int, cap: int) -> int {
    if n <= cap {
        n
    } else {
        cap
    }
}

/// How many literals of the clause lie over a still-unassigned variable.
pub open spec fn count_unassigned_lits(asgn: Seq<i32>, c: Seq<i32>) -> int
    decreases c.len(),
{
    if c.len() <= 0 {
        0
    } else {
        count_unassigned_lits(asgn, c.drop_last()) + if asgn[lit_var(c.last())] == 0 {
            1int
        } else {
            0int
        }
    }
}

/// A unit clause under the current assignment: exactly one of its literals
/// lies over an unassigned variable.
pub open spec fn is_unit(asgn: Seq<i32>, c: Seq<i32>) -> bool {
    count_unassigned_lits(asgn, c) == 1
}

} // verus!
