//! The DPLL decision procedure: backtracking search over partial assignments,
//! interleaved with pure-literal elimination and unit propagation.

use vstd::prelude::*;

use crate::formula::capped;
use crate::formula::clause_contains;
use crate::formula::clause_has_var;
use crate::formula::clause_holds;
use crate::formula::clause_sat;
use crate::formula::clause_wf;
use crate::formula::count_lit;
use crate::formula::count_lit_in_clause;
use crate::formula::count_unassigned;
use crate::formula::count_unassigned_lits;
use crate::formula::extendable;
use crate::formula::formula_holds;
use crate::formula::formula_sat_under;
use crate::formula::formula_wf;
use crate::formula::is_unit;
use crate::formula::lit_falsified;
use crate::formula::Literal;
use crate::formula::lit_holds;
use crate::formula::lit_sat;
use crate::formula::lit_var;
use crate::formula::lit_wf;
use crate::formula::respects;
use crate::formula::satisfiable;
use crate::formula::to_full;
use crate::formula::AssignedVariable;
use crate::formula::CnfFormula;
use crate::formula::SatResult;
use crate::formula::Variable;

verus! {

pub struct DpllSolver {
    pub num_vars: usize,
    pub assigned_values: Vec<AssignedVariable>,
    pub appearance_counts: Vec<(usize, usize)>,
    pub decision_stack: Vec<Literal>,
    pub active_clauses: Vec<bool>,
    pub unassigned_count: usize,
    pub formula: CnfFormula,
}

impl DpllSolver {
    /// The solver's internal invariant: sizes line up, the formula is over
    /// variables `1..=num_vars`, the assignment entries are three-valued, the
    /// decision stack records exactly the assigned variables in some order,
    /// a clause is active if and only if none of its literals is currently
    /// satisfied, and the appearance counts cover every occurrence in the
    /// formula.
    pub open spec fn wf(self) -> bool {
        let nv = self.num_vars as int;
        let asgn = self.assigned_values@;
        let stack = self.decision_stack@;
        let f = self.formula@;
        &&& nv <= i32::MAX
        &&& asgn.len() == nv + 1
        &&& self.appearance_counts@.len() == nv + 1
        &&& self.active_clauses@.len() == f.len()
        &&& formula_wf(f, nv)
        &&& asgn[0] == 0
        &&& forall|v: int| 0 <= v <= nv ==> -1 <= #[trigger] asgn[v] <= 1
        &&& self.unassigned_count == count_unassigned(asgn, nv)
        &&& stack.len() + count_unassigned(asgn, nv) == nv
        &&& forall|k: int|
            0 <= k < stack.len() ==> lit_wf(#[trigger] stack[k], nv) && asgn[lit_var(stack[k])]
                == (if stack[k] > 0 {
                1int
            } else {
                -1int
            })
        &&& forall|k1: int, k2: int|
            0 <= k1 < k2 < stack.len() ==> lit_var(#[trigger] stack[k1]) != lit_var(
                #[trigger] stack[k2],
            )
        &&& forall|v: int|
            1 <= v <= nv && #[trigger] asgn[v] != 0 ==> exists|k: int|
                0 <= k < stack.len() && lit_var(#[trigger] stack[k]) == v
        &&& forall|i: int|
            0 <= i < f.len() ==> (#[trigger] self.active_clauses@[i] <==> !clause_sat(
                asgn,
                f[i]@,
            ))
        &&& forall|i: int, j: int|
            0 <= i < f.len() && 0 <= j < f[i]@.len() ==> (((#[trigger] f[i]@[j]) > 0
                ==> self.appearance_counts@[lit_var(f[i]@[j])].0 > 0) && (f[i]@[j] < 0
                ==> self.appearance_counts@[lit_var(f[i]@[j])].1 > 0))
    }

}

/// Counting is affected by an update only at the updated position.
proof fn lemma_count_update(asgn: Seq<i32>, n: int, v: int, x: i32)
    requires
        1 <= v <= n,
        n < asgn.len(),
    ensures
        count_unassigned(asgn.update(v, x), n) == count_unassigned(asgn, n) - (if asgn[v] == 0 {
            1int
        } else {
            0int
        }) + (if x == 0 {
            1int
        } else {
            0int
        }),
    decreases n,
{
    if n == v {
        lemma_count_agree(asgn.update(v, x), asgn, n - 1);
    } else {
        lemma_count_update(asgn, n - 1, v, x);
    }
}

/// Counting only reads the entries `1..=n`.
proof fn lemma_count_agree(a1: Seq<i32>, a2: Seq<i32>, n: int)
    requires
        n < a1.len(),
        n < a2.len(),
        forall|v: int| 1 <= v <= n ==> a1[v] == a2[v],
    ensures
        count_unassigned(a1, n) == count_unassigned(a2, n),
    decreases n,
{
    if n > 0 {
        lemma_count_agree(a1, a2, n - 1);
    }
}

/// The count is between 0 and n.
proof fn lemma_count_bounds(asgn: Seq<i32>, n: int)
    requires
        n < asgn.len(),
    ensures
        0 <= count_unassigned(asgn, n),
        count_unassigned(asgn, n) <= (if n >= 0 {
            n
        } else {
            0int
        }),
    decreases n,
{
    if n > 0 {
        lemma_count_bounds(asgn, n - 1);
    }
}

/// A zero count means every variable is assigned; an unassigned variable
/// makes the count positive.
proof fn lemma_count_zero(asgn: Seq<i32>, n: int)
    requires
        n < asgn.len(),
        count_unassigned(asgn, n) == 0,
    ensures
        forall|v: int| 1 <= v <= n ==> #[trigger] asgn[v] != 0,
    decreases n,
{
    if n > 0 {
        lemma_count_bounds(asgn, n - 1);
        lemma_count_zero(asgn, n - 1);
    }
}

/// An entirely unassigned range counts fully.
proof fn lemma_count_all_zero(asgn: Seq<i32>, n: int)
    requires
        n < asgn.len(),
        forall|v: int| 1 <= v <= n ==> #[trigger] asgn[v] == 0,
    ensures
        count_unassigned(asgn, n) == (if n >= 0 {
            n
        } else {
            0int
        }),
    decreases n,
{
    if n > 0 {
        lemma_count_all_zero(asgn, n - 1);
    }
}

impl DpllSolver {
    /// Build a solver for `formula` over the variables `1..=num_vars`: count
    /// every positive and negative occurrence of each variable (saturating at
    /// `usize::MAX`, which the contract states exactly), mark every clause
    /// active, and leave every variable unassigned.
    #[verifier::loop_isolation(false)]
    pub fn new(formula: CnfFormula, num_vars: usize) -> (s: Self)
        requires
            num_vars <= i32::MAX,
            formula_wf(formula@, num_vars as int),
        ensures
            s.wf(),
            s.formula@ == formula@,
            s.num_vars == num_vars,
            s.decision_stack@ == Seq::<i32>::empty(),
            s.unassigned_count == num_vars,
            forall|v: int| 0 <= v <= num_vars as int ==> #[trigger] s.assigned_values@[v] == 0,
            forall|v: int|
                1 <= v <= num_vars as int ==> (#[trigger] s.appearance_counts@[v]).0 as int
                    == capped(count_lit(formula@, v as i32), usize::MAX as int)
                    && s.appearance_counts@[v].1 as int == capped(
                    count_lit(formula@, (-v) as i32),
                    usize::MAX as int,
                ),
    {
        let ghost nv = num_vars as int;
        let mut appearance_counts: Vec<(usize, usize)> = Vec::new();
        let mut v: usize = 0;
        while v < num_vars + 1
            invariant
                v <= num_vars + 1,
                appearance_counts@.len() == v as int,
                forall|k: int|
                    0 <= k < v as int ==> #[trigger] appearance_counts@[k] == (0usize, 0usize),
            decreases num_vars + 1 - v,
        {
            appearance_counts.push((0, 0));
            v = v + 1;
        }

        let mut ci: usize = 0;
        proof {
            assert(formula@.take(0).len() == 0);
        }
        while ci < formula.len()
            invariant
                num_vars <= i32::MAX,
                formula_wf(formula@, nv),
                ci <= formula@.len(),
                appearance_counts@.len() == nv + 1,
                forall|i: int, j: int|
                    0 <= i < ci as int && 0 <= j < formula@[i]@.len() ==> (((
                    #[trigger] formula@[i]@[j]) > 0 ==> appearance_counts@[lit_var(
                        formula@[i]@[j],
                    )].0 > 0) && (formula@[i]@[j] < 0 ==> appearance_counts@[lit_var(
                        formula@[i]@[j],
                    )].1 > 0)),
                forall|v3: int|
                    1 <= v3 <= nv ==> (#[trigger] appearance_counts@[v3]).0 as int == capped(
                        count_lit(formula@.take(ci as int), v3 as i32),
                        usize::MAX as int,
                    ) && appearance_counts@[v3].1 as int == capped(
                        count_lit(formula@.take(ci as int), (-v3) as i32),
                        usize::MAX as int,
                    ),
            decreases formula@.len() - ci,
        {
            let clause_len = formula[ci].len();
            let mut j: usize = 0;
            while j < clause_len
                invariant
                    num_vars <= i32::MAX,
                    formula_wf(formula@, nv),
                    ci < formula@.len(),
                    clause_len == formula@[ci as int]@.len(),
                    j <= clause_len,
                    appearance_counts@.len() == nv + 1,
                    forall|i: int, j2: int|
                        0 <= i < ci as int && 0 <= j2 < formula@[i]@.len() ==> (((
                        #[trigger] formula@[i]@[j2]) > 0 ==> appearance_counts@[lit_var(
                            formula@[i]@[j2],
                        )].0 > 0) && (formula@[i]@[j2] < 0 ==> appearance_counts@[lit_var(
                            formula@[i]@[j2],
                        )].1 > 0)),
                    forall|j2: int|
                        0 <= j2 < j as int ==> (((#[trigger] formula@[ci as int]@[j2]) > 0
                            ==> appearance_counts@[lit_var(formula@[ci as int]@[j2])].0 > 0) && (
                        formula@[ci as int]@[j2] < 0 ==> appearance_counts@[lit_var(
                            formula@[ci as int]@[j2],
                        )].1 > 0)),
                    forall|v3: int|
                        1 <= v3 <= nv ==> (#[trigger] appearance_counts@[v3]).0 as int == capped(
                            count_lit(formula@.take(ci as int), v3 as i32) + count_lit_in_clause(
                                formula@[ci as int]@.take(j as int),
                                v3 as i32,
                            ),
                            usize::MAX as int,
                        ) && appearance_counts@[v3].1 as int == capped(
                            count_lit(formula@.take(ci as int), (-v3) as i32)
                                + count_lit_in_clause(
                                formula@[ci as int]@.take(j as int),
                                (-v3) as i32,
                            ),
                            usize::MAX as int,
                        ),
                decreases clause_len - j,
            {
                let lit = formula[ci][j];
                assert(lit_wf(lit, nv));
                proof {
                    lemma_count_lit_in_clause_step(formula@[ci as int]@, j as int);
                    lemma_count_lit_nonneg(formula@.take(ci as int));
                    lemma_count_lit_in_clause_nonneg(formula@[ci as int]@.take(j as int));
                }
                let var: usize = if lit > 0 {
                    lit as usize
                } else {
                    (-lit) as usize
                };
                assert(var as int == lit_var(lit));
                let entry = appearance_counts[var];
                if lit > 0 {
                    let c0: usize = if entry.0 < usize::MAX {
                        entry.0 + 1
                    } else {
                        entry.0
                    };
                    appearance_counts[var] = (c0, entry.1);
                } else {
                    let c1: usize = if entry.1 < usize::MAX {
                        entry.1 + 1
                    } else {
                        entry.1
                    };
                    appearance_counts[var] = (entry.0, c1);
                }
                j = j + 1;
            }
            proof {
                assert(formula@[ci as int]@.take(clause_len as int) =~= formula@[ci as int]@);
                lemma_count_lit_step(formula@, ci as int);
            }
            ci = ci + 1;
        }
        proof {
            assert(formula@.take(formula@.len() as int) =~= formula@);
        }

        let mut assigned_values: Vec<i32> = Vec::new();
        let mut v2: usize = 0;
        while v2 < num_vars + 1
            invariant
                v2 <= num_vars + 1,
                assigned_values@.len() == v2 as int,
                forall|k: int| 0 <= k < v2 as int ==> #[trigger] assigned_values@[k] == 0,
            decreases num_vars + 1 - v2,
        {
            assigned_values.push(0);
            v2 = v2 + 1;
        }

        let mut active_clauses: Vec<bool> = Vec::new();
        let mut i2: usize = 0;
        while i2 < formula.len()
            invariant
                i2 <= formula@.len(),
                active_clauses@.len() == i2 as int,
                forall|k: int| 0 <= k < i2 as int ==> #[trigger] active_clauses@[k] == true,
            decreases formula@.len() - i2,
        {
            active_clauses.push(true);
            i2 = i2 + 1;
        }

        let s = DpllSolver {
            num_vars,
            assigned_values,
            appearance_counts,
            decision_stack: Vec::new(),
            active_clauses,
            unassigned_count: num_vars,
            formula,
        };
        proof {
            lemma_count_all_zero(s.assigned_values@, nv);
            assert forall|i: int| 0 <= i < s.formula@.len() implies !clause_sat(
                s.assigned_values@,
                s.formula@[i]@,
            ) by {
                assert forall|j: int| 0 <= j < s.formula@[i]@.len() implies !lit_sat(
                    s.assigned_values@,
                    #[trigger] s.formula@[i]@[j],
                ) by {
                    assert(lit_wf(s.formula@[i]@[j], nv));
                }
            }
            assert(s.decision_stack@ =~= Seq::<i32>::empty());
        }
        s
    }
}
/// Whether `clause` mentions the exact literal `l`.
fn clause_contains_lit(clause: &Vec<i32>, l: i32) -> (r: bool)
    ensures
        r == clause_contains(clause@, l),
{
    let mut j: usize = 0;
    let mut found = false;
    while j < clause.len()
        invariant
            j <= clause@.len(),
            found == exists|j2: int| 0 <= j2 < j as int && #[trigger] clause@[j2] == l,
        decreases clause@.len() - j,
    {
        if clause[j] == l {
            found = true;
        }
        j = j + 1;
    }
    found
}

/// Assigning an unassigned variable satisfies exactly the clauses that
/// mention the newly satisfied literal, on top of those already satisfied.
proof fn lemma_clause_sat_assign(asgn: Seq<i32>, c: Seq<i32>, nv: int, v: int, value: bool)
    requires
        asgn.len() == nv + 1,
        clause_wf(c, nv),
        nv <= i32::MAX,
        1 <= v <= nv,
        asgn[v] == 0,
    ensures
        clause_sat(asgn.update(v, if value { 1i32 } else { -1i32 }), c) == (clause_sat(asgn, c)
            || clause_contains(c, if value { v as i32 } else { (-v) as i32 })),
{
    let s: i32 = if value { 1i32 } else { -1i32 };
    let slit: i32 = if value { v as i32 } else { (-v) as i32 };
    let asgn2 = asgn.update(v, s);
    if clause_sat(asgn2, c) {
        let j = choose|j: int| 0 <= j < c.len() && lit_sat(asgn2, #[trigger] c[j]);
        if lit_var(c[j]) == v {
            assert(c[j] == slit);
            assert(clause_contains(c, slit));
        } else {
            assert(lit_sat(asgn, c[j]));
            assert(clause_sat(asgn, c));
        }
    }
    if clause_sat(asgn, c) {
        let j = choose|j: int| 0 <= j < c.len() && lit_sat(asgn, #[trigger] c[j]);
        assert(lit_var(c[j]) != v);
        assert(lit_sat(asgn2, c[j]));
        assert(clause_sat(asgn2, c));
    }
    if clause_contains(c, slit) {
        let j = choose|j: int| 0 <= j < c.len() && #[trigger] c[j] == slit;
        assert(lit_sat(asgn2, c[j]));
        assert(clause_sat(asgn2, c));
    }
}

impl DpllSolver {
    /// Assign `var := value` if it is still unassigned, and do nothing at all
    /// if it already has a value: record the signed literal on the decision
    /// stack, store the assignment, decrement the unassigned counter, and
    /// deactivate every active clause that the new assignment satisfies.
    #[verifier::loop_isolation(false)]
    pub fn set_and_recalculate_params(&mut self, var: Variable, value: bool)
        requires
            old(self).wf(),
            1 <= var <= old(self).num_vars,
        ensures
            final(self).wf(),
            final(self).formula@ == old(self).formula@,
            final(self).num_vars == old(self).num_vars,
            final(self).appearance_counts@ == old(self).appearance_counts@,
            old(self).assigned_values@[var as int] != 0 ==> final(self).assigned_values@ == old(self).assigned_values@ && final(self).decision_stack@ == old(self).decision_stack@ && final(self).active_clauses@ == old(self).active_clauses@ && final(self).unassigned_count == old(self).unassigned_count,
            old(self).assigned_values@[var as int] == 0 ==> final(self).assigned_values@ == old(self).assigned_values@.update(
                var as int,
                if value {
                    1i32
                } else {
                    -1i32
                },
            ) && final(self).decision_stack@ == old(self).decision_stack@.push(
                if value {
                    var as i32
                } else {
                    ((-(var as i32)) as i32)
                },
            ) && final(self).unassigned_count == old(self).unassigned_count - 1,
    {
        if self.assigned_values[var] != 0 {
            return ;
        }
        let ghost nv = self.num_vars as int;
        let ghost asgn0 = self.assigned_values@;
        let ghost stack0 = self.decision_stack@;
        let ghost active0 = self.active_clauses@;
        let assigned: i32 = if value {
            var as i32
        } else {
            -(var as i32)
        };
        assert(lit_var(assigned) == var as int);
        self.decision_stack.push(assigned);
        self.assigned_values[var] = if value {
            1
        } else {
            -1
        };
        proof {
            lemma_count_update(
                asgn0,
                nv,
                var as int,
                if value {
                    1i32
                } else {
                    -1i32
                },
            );
            lemma_count_bounds(asgn0, nv);
            lemma_count_bounds(
                asgn0.update(
                    var as int,
                    if value {
                        1i32
                    } else {
                        -1i32
                    },
                ),
                nv,
            );
        }
        self.unassigned_count = self.unassigned_count - 1;
        let ghost asgn1 = self.assigned_values@;
        let mut i: usize = 0;
        while i < self.formula.len()
            invariant
                i <= self.formula@.len(),
                self.formula@ == old(self).formula@,
                self.num_vars == old(self).num_vars,
                self.appearance_counts@ == old(self).appearance_counts@,
                self.decision_stack@ == stack0.push(assigned),
                self.assigned_values@ == asgn1,
                self.unassigned_count == old(self).unassigned_count - 1,
                self.active_clauses@.len() == self.formula@.len(),
                forall|k: int|
                    i as int <= k < self.formula@.len() ==> #[trigger] self.active_clauses@[k]
                        == active0[k],
                forall|k: int|
                    0 <= k < i as int ==> #[trigger] self.active_clauses@[k] == (active0[k]
                        && !clause_contains(self.formula@[k]@, assigned)),
            decreases self.formula@.len() - i,
        {
            if self.active_clauses[i] {
                let found = clause_contains_lit(&self.formula[i], assigned);
                if found {
                    self.active_clauses[i] = false;
                }
            }
            i = i + 1;
        }
        proof {
            assert forall|k: int| 0 <= k < self.formula@.len() implies (
            #[trigger] self.active_clauses@[k] <==> !clause_sat(
                self.assigned_values@,
                self.formula@[k]@,
            )) by {
                lemma_clause_sat_assign(asgn0, self.formula@[k]@, nv, var as int, value);
                assert(active0[k] == !clause_sat(asgn0, self.formula@[k]@));
            }
            assert forall|k: int| 0 <= k < self.decision_stack@.len() implies lit_wf(
                #[trigger] self.decision_stack@[k],
                nv,
            ) && self.assigned_values@[lit_var(self.decision_stack@[k])] == (if self
                .decision_stack@[k] > 0 {
                1int
            } else {
                -1int
            }) by {
                if k < stack0.len() {
                    assert(self.decision_stack@[k] == stack0[k]);
                    assert(asgn0[lit_var(stack0[k])] != 0);
                    assert(lit_var(stack0[k]) != var as int);
                } else {
                    assert(self.decision_stack@[k] == assigned);
                }
            }
            assert forall|k1: int, k2: int|
                0 <= k1 < k2 < self.decision_stack@.len() implies lit_var(
                #[trigger] self.decision_stack@[k1],
            ) != lit_var(#[trigger] self.decision_stack@[k2]) by {
                if k2 < stack0.len() {
                    assert(self.decision_stack@[k1] == stack0[k1]);
                    assert(self.decision_stack@[k2] == stack0[k2]);
                } else {
                    assert(self.decision_stack@[k1] == stack0[k1]);
                    assert(asgn0[lit_var(stack0[k1])] != 0);
                    assert(self.decision_stack@[k2] == assigned);
                }
            }
            assert forall|u: int|
                1 <= u <= nv && #[trigger] self.assigned_values@[u] != 0 implies exists|k: int|
                0 <= k < self.decision_stack@.len() && lit_var(#[trigger] self.decision_stack@[k])
                    == u by {
                if u == var as int {
                    assert(self.decision_stack@[stack0.len() as int] == assigned);
                    assert(lit_var(self.decision_stack@[stack0.len() as int]) == u);
                } else {
                    assert(asgn0[u] != 0);
                    let k = choose|k: int|
                        0 <= k < stack0.len() && lit_var(#[trigger] stack0[k]) == u;
                    assert(self.decision_stack@[k] == stack0[k]);
                    assert(lit_var(self.decision_stack@[k]) == u);
                }
            }
        }
    }
}

/// Whether some literal of `clause` is satisfied by the current assignment.
#[verifier::loop_isolation(false)]
fn clause_has_sat_lit(asgn: &Vec<i32>, clause: &Vec<i32>) -> (r: bool)
    requires
        asgn@.len() >= 1,
        asgn@.len() <= 0x8000_0000,
        clause_wf(clause@, asgn@.len() - 1),
    ensures
        r == clause_sat(asgn@, clause@),
{
    let mut j: usize = 0;
    let mut found = false;
    while j < clause.len()
        invariant
            j <= clause@.len(),
            found == exists|j2: int| 0 <= j2 < j as int && lit_sat(asgn@, #[trigger] clause@[j2]),
        decreases clause@.len() - j,
    {
        let l = clause[j];
        let var: usize = if l > 0 {
            l as usize
        } else {
            (-l) as usize
        };
        let val = asgn[var];
        if (l > 0 && val == 1) || (l < 0 && val == -1) {
            found = true;
            assert(lit_sat(asgn@, clause@[j as int]));
        }
        j = j + 1;
    }
    found
}

/// Whether `clause` mentions variable `var` in either polarity.
#[verifier::loop_isolation(false)]
fn clause_contains_var(clause: &Vec<i32>, var: usize, Ghost(nv): Ghost<int>) -> (r: bool)
    requires
        nv <= i32::MAX,
        clause_wf(clause@, nv),
    ensures
        r == clause_has_var(clause@, var as int),
{
    let mut j: usize = 0;
    let mut found = false;
    while j < clause.len()
        invariant
            j <= clause@.len(),
            found == exists|j2: int|
                0 <= j2 < j as int && lit_var(#[trigger] clause@[j2]) == var as int,
        decreases clause@.len() - j,
    {
        let l = clause[j];
        let v2: usize = if l > 0 {
            l as usize
        } else {
            (-l) as usize
        };
        if v2 == var {
            found = true;
            assert(lit_var(clause@[j as int]) == var as int);
        }
        j = j + 1;
    }
    found
}

/// Removing an assignment never satisfies a new literal of a clause, and a
/// clause that does not mention the variable keeps its status.
proof fn lemma_clause_sat_unassign(asgn: Seq<i32>, c: Seq<i32>, nv: int, v: int)
    requires
        asgn.len() == nv + 1,
        clause_wf(c, nv),
        nv <= i32::MAX,
        1 <= v <= nv,
    ensures
        clause_sat(asgn.update(v, 0), c) ==> clause_sat(asgn, c),
        !clause_has_var(c, v) ==> clause_sat(asgn.update(v, 0), c) == clause_sat(asgn, c),
{
    let asgn2 = asgn.update(v, 0);
    if clause_sat(asgn2, c) {
        let j = choose|j: int| 0 <= j < c.len() && lit_sat(asgn2, #[trigger] c[j]);
        assert(lit_var(c[j]) != v);
        assert(lit_sat(asgn, c[j]));
        assert(clause_sat(asgn, c));
    }
    if !clause_has_var(c, v) && clause_sat(asgn, c) {
        let j = choose|j: int| 0 <= j < c.len() && lit_sat(asgn, #[trigger] c[j]);
        assert(lit_var(c[j]) != v);
        assert(lit_sat(asgn2, c[j]));
        assert(clause_sat(asgn2, c));
    }
}

/// Two well-formed solver states over the same formula and with the same
/// decision stack agree on all the mutable state: the stack determines the
/// assignment, and the assignment determines the unassigned counter and the
/// activity flags.
proof fn lemma_state_determined(s1: DpllSolver, s2: DpllSolver)
    requires
        s1.wf(),
        s2.wf(),
        s1.formula@ == s2.formula@,
        s1.num_vars == s2.num_vars,
        s1.decision_stack@ == s2.decision_stack@,
    ensures
        s1.assigned_values@ == s2.assigned_values@,
        s1.unassigned_count == s2.unassigned_count,
        s1.active_clauses@ == s2.active_clauses@,
{
    let nv = s1.num_vars as int;
    assert forall|v: int| 0 <= v < nv + 1 implies s1.assigned_values@[v]
        == s2.assigned_values@[v] by {
        if v >= 1 {
            if s1.assigned_values@[v] != 0 {
                let k = choose|k: int|
                    0 <= k < s1.decision_stack@.len() && lit_var(#[trigger] s1.decision_stack@[k])
                        == v;
                assert(s2.decision_stack@[k] == s1.decision_stack@[k]);
            }
            if s2.assigned_values@[v] != 0 {
                let k = choose|k: int|
                    0 <= k < s2.decision_stack@.len() && lit_var(#[trigger] s2.decision_stack@[k])
                        == v;
                assert(s1.decision_stack@[k] == s2.decision_stack@[k]);
            }
        }
    }
    assert(s1.assigned_values@ =~= s2.assigned_values@);
    assert forall|i: int| 0 <= i < s1.active_clauses@.len() implies s1.active_clauses@[i]
        == s2.active_clauses@[i] by {
        assert(s1.active_clauses@[i] <==> !clause_sat(s1.assigned_values@, s1.formula@[i]@));
        assert(s2.active_clauses@[i] <==> !clause_sat(s2.assigned_values@, s2.formula@[i]@));
    }
    assert(s1.active_clauses@ =~= s2.active_clauses@);
}

impl DpllSolver {
    /// Undo the `count` most recent assignments, or all of them if fewer
    /// exist: pop each literal, clear its variable, increment the unassigned
    /// counter, and reactivate the clauses that mention that variable and are
    /// no longer satisfied. `backtrack(0)`, or any call on an empty stack,
    /// leaves the state untouched.
    #[verifier::loop_isolation(false)]
    pub fn backtrack(&mut self, count: usize)
        requires
            old(self).wf(),
        ensures
            final(self).wf(),
            final(self).formula@ == old(self).formula@,
            final(self).num_vars == old(self).num_vars,
            final(self).appearance_counts@ == old(self).appearance_counts@,
            final(self).decision_stack@ == old(self).decision_stack@.take(
                if count as int <= old(self).decision_stack@.len() {
                    old(self).decision_stack@.len() - count as int
                } else {
                    0int
                },
            ),
            count == 0 ==> final(self).assigned_values@ == old(self).assigned_values@ && final(self).active_clauses@ == old(self).active_clauses@ && final(self).unassigned_count == old(self).unassigned_count,
    {
        let ghost nv = self.num_vars as int;
        let ghost stack_at_entry = self.decision_stack@;
        proof {
            assert(stack_at_entry.take(stack_at_entry.len() as int) =~= stack_at_entry);
        }
        let mut k: usize = 0;
        while k < count && self.decision_stack.len() > 0
            invariant
                k <= count,
                k as int <= stack_at_entry.len(),
                self.wf(),
                self.formula@ == old(self).formula@,
                self.num_vars == old(self).num_vars,
                self.appearance_counts@ == old(self).appearance_counts@,
                self.decision_stack@ == stack_at_entry.take(stack_at_entry.len() - k as int),
            decreases count - k,
        {
            let ghost s_pre = *self;
            let ghost asgn_pre = self.assigned_values@;
            let lit = self.decision_stack.pop().unwrap();
            let var: usize = if lit > 0 {
                lit as usize
            } else {
                (-lit) as usize
            };
            proof {
                assert(lit == s_pre.decision_stack@[s_pre.decision_stack@.len() - 1]);
                assert(lit_wf(lit, nv));
                assert(var as int == lit_var(lit));
                assert(asgn_pre[var as int] != 0);
            }
            self.assigned_values[var] = 0;
            proof {
                lemma_count_update(asgn_pre, nv, var as int, 0i32);
                lemma_count_bounds(asgn_pre, nv);
                lemma_count_bounds(asgn_pre.update(var as int, 0i32), nv);
            }
            self.unassigned_count = self.unassigned_count + 1;
            let ghost asgn2 = self.assigned_values@;
            let ghost active_pre = self.active_clauses@;
            let ghost stack_now = self.decision_stack@;
            let ghost count_now = self.unassigned_count;
            let mut i: usize = 0;
            while i < self.formula.len()
                invariant
                    i <= self.formula@.len(),
                    self.formula@ == old(self).formula@,
                    self.num_vars == old(self).num_vars,
                    self.appearance_counts@ == old(self).appearance_counts@,
                    self.decision_stack@ == stack_now,
                    self.assigned_values@ == asgn2,
                    self.unassigned_count == count_now,
                    self.active_clauses@.len() == self.formula@.len(),
                    forall|kk: int|
                        i as int <= kk < self.formula@.len()
                            ==> #[trigger] self.active_clauses@[kk] == active_pre[kk],
                    forall|kk: int|
                        0 <= kk < i as int ==> (#[trigger] self.active_clauses@[kk] <==> !clause_sat(
                            asgn2,
                            self.formula@[kk]@,
                        )),
                decreases self.formula@.len() - i,
            {
                proof {
                    lemma_clause_sat_unassign(asgn_pre, self.formula@[i as int]@, nv, var as int);
                }
                if !self.active_clauses[i] {
                    let contains = clause_contains_var(&self.formula[i], var, Ghost(nv));
                    if contains {
                        let still_sat = clause_has_sat_lit(&self.assigned_values, &self.formula[i]);
                        if !still_sat {
                            self.active_clauses[i] = true;
                        }
                    }
                }
                i = i + 1;
            }
            proof {
                assert(stack_now =~= stack_at_entry.take(stack_at_entry.len() - (k + 1)));
                assert forall|kk: int| 0 <= kk < stack_now.len() implies lit_wf(
                    #[trigger] stack_now[kk],
                    nv,
                ) && asgn2[lit_var(stack_now[kk])] == (if stack_now[kk] > 0 {
                    1int
                } else {
                    -1int
                }) by {
                    assert(stack_now[kk] == s_pre.decision_stack@[kk]);
                    assert(lit_var(s_pre.decision_stack@[kk]) != lit_var(
                        s_pre.decision_stack@[s_pre.decision_stack@.len() - 1],
                    ));
                }
                assert forall|u: int|
                    1 <= u <= nv && #[trigger] asgn2[u] != 0 implies exists|kk: int|
                    0 <= kk < stack_now.len() && lit_var(#[trigger] stack_now[kk]) == u by {
                    assert(u != var as int);
                    assert(asgn_pre[u] != 0);
                    let kk = choose|kk: int|
                        0 <= kk < s_pre.decision_stack@.len() && lit_var(
                            #[trigger] s_pre.decision_stack@[kk],
                        ) == u;
                    assert(kk != s_pre.decision_stack@.len() - 1);
                    assert(stack_now[kk] == s_pre.decision_stack@[kk]);
                }
            }
            k = k + 1;
        }
        proof {
            if count as int <= stack_at_entry.len() {
                assert(k == count);
            } else {
                assert(k as int == stack_at_entry.len());
                assert(self.decision_stack@ =~= stack_at_entry.take(0));
            }
            if count == 0 {
                assert(self.decision_stack@ =~= old(self).decision_stack@);
                lemma_state_determined(*self, *old(self));
            }
        }
    }
}

/// A range with no unassigned variable counts zero.
proof fn lemma_count_none_zero(asgn: Seq<i32>, n: int)
    requires
        n < asgn.len(),
        forall|v: int| 1 <= v <= n ==> #[trigger] asgn[v] != 0,
    ensures
        count_unassigned(asgn, n) == 0,
    decreases n,
{
    if n > 0 {
        lemma_count_none_zero(asgn, n - 1);
    }
}

/// On a fully assigned state, the satisfaction check over the stored values
/// decides truth outright: success yields a satisfying full assignment, and
/// failure rules out every full assignment that agrees with the stored one.
proof fn lemma_full_assignment(asgn: Seq<i32>, f: Seq<Vec<i32>>, nv: int)
    requires
        asgn.len() == nv + 1,
        nv <= i32::MAX,
        formula_wf(f, nv),
        forall|v: int| 0 <= v <= nv ==> -1 <= #[trigger] asgn[v] <= 1,
        count_unassigned(asgn, nv) == 0,
    ensures
        formula_sat_under(asgn, f) ==> formula_holds(to_full(asgn), f),
        formula_sat_under(asgn, f) ==> satisfiable(f, nv),
        !formula_sat_under(asgn, f) ==> !extendable(asgn, f, nv),
{
    lemma_count_zero(asgn, nv);
    if formula_sat_under(asgn, f) {
        let a = to_full(asgn);
        assert forall|i: int| 0 <= i < f.len() implies clause_holds(a, #[trigger] f[i]@) by {
            let j = choose|j: int| 0 <= j < f[i]@.len() && lit_sat(asgn, #[trigger] f[i]@[j]);
            assert(lit_wf(f[i]@[j], nv));
            assert(lit_holds(a, f[i]@[j]));
        }
        assert(a.len() == nv + 1);
        assert(satisfiable(f, nv));
    } else {
        let i = choose|i: int| 0 <= i < f.len() && !clause_sat(asgn, #[trigger] f[i]@);
        if extendable(asgn, f, nv) {
            let a = choose|a: Seq<bool>|
                a.len() == nv + 1 && respects(a, asgn) && formula_holds(a, f);
            assert(clause_holds(a, f[i]@));
            let j = choose|j: int| 0 <= j < f[i]@.len() && lit_holds(a, #[trigger] f[i]@[j]);
            let l = f[i]@[j];
            assert(lit_wf(l, nv));
            assert(!lit_sat(asgn, l));
            if l > 0 {
                assert(asgn[l as int] == -1);
                assert(!a[l as int]);
            } else {
                assert(asgn[-(l as int)] == 1);
                assert(a[-(l as int)]);
            }
            assert(false);
        }
    }
}

/// If the formula can still be satisfied, it can still be satisfied after
/// committing the unassigned variable `v` to one of the two polarities.
proof fn lemma_branch(asgn: Seq<i32>, f: Seq<Vec<i32>>, nv: int, v: int)
    requires
        asgn.len() == nv + 1,
        1 <= v <= nv,
        asgn[v] == 0,
        extendable(asgn, f, nv),
    ensures
        extendable(asgn.update(v, 1i32), f, nv) || extendable(asgn.update(v, -1i32), f, nv),
{
    let a = choose|a: Seq<bool>| a.len() == nv + 1 && respects(a, asgn) && formula_holds(a, f);
    if a[v] {
        assert(respects(a, asgn.update(v, 1i32)));
        assert(extendable(asgn.update(v, 1i32), f, nv));
    } else {
        assert(respects(a, asgn.update(v, -1i32)));
        assert(extendable(asgn.update(v, -1i32), f, nv));
    }
}

/// Committing a pure variable to its only polarity cannot lose
/// satisfiability: a satisfying assignment can be repaired at that variable,
/// since no clause asks for the opposite polarity.
proof fn lemma_pure_literal(asgn: Seq<i32>, f: Seq<Vec<i32>>, nv: int, v: int, value: bool)
    requires
        asgn.len() == nv + 1,
        nv <= i32::MAX,
        formula_wf(f, nv),
        1 <= v <= nv,
        asgn[v] == 0,
        value ==> forall|i: int, j: int|
            0 <= i < f.len() && 0 <= j < f[i]@.len() ==> (#[trigger] f[i]@[j]) as int != -v,
        !value ==> forall|i: int, j: int|
            0 <= i < f.len() && 0 <= j < f[i]@.len() ==> (#[trigger] f[i]@[j]) as int != v,
    ensures
        extendable(asgn, f, nv) ==> extendable(
            asgn.update(
                v,
                if value {
                    1i32
                } else {
                    -1i32
                },
            ),
            f,
            nv,
        ),
{
    let x: i32 = if value {
        1i32
    } else {
        -1i32
    };
    if extendable(asgn, f, nv) {
        let a = choose|a: Seq<bool>| a.len() == nv + 1 && respects(a, asgn) && formula_holds(a, f);
        let a2 = a.update(v, value);
        assert(respects(a2, asgn.update(v, x)));
        assert forall|i: int| 0 <= i < f.len() implies clause_holds(a2, #[trigger] f[i]@) by {
            let j = choose|j: int| 0 <= j < f[i]@.len() && lit_holds(a, #[trigger] f[i]@[j]);
            let l = f[i]@[j];
            assert(lit_wf(l, nv));
            if lit_var(l) == v {
                if l > 0 {
                    assert(l as int == v);
                    assert(value);
                    assert(lit_holds(a2, l));
                } else {
                    assert(l as int == -v);
                    assert(!value);
                    assert(lit_holds(a2, l));
                }
            } else {
                assert(lit_holds(a2, l));
            }
        }
        assert(a2.len() == nv + 1);
        assert(extendable(asgn.update(v, x), f, nv));
    }
}

/// A unit clause forces its single unassigned literal: every satisfying
/// assignment that agrees with the current one must make that literal true,
/// so it also agrees with the assignment extended by the forced value.
proof fn lemma_unit_forced(asgn: Seq<i32>, f: Seq<Vec<i32>>, nv: int, ci: int, jj: int)
    requires
        asgn.len() == nv + 1,
        nv <= i32::MAX,
        formula_wf(f, nv),
        0 <= ci < f.len(),
        0 <= jj < f[ci]@.len(),
        asgn[lit_var(f[ci]@[jj])] == 0,
        forall|j: int|
            0 <= j < f[ci]@.len() && j != jj ==> lit_falsified(asgn, #[trigger] f[ci]@[j]),
    ensures
        forall|a: Seq<bool>|
            a.len() == nv + 1 && respects(a, asgn) && formula_holds(a, f) ==> respects(
                a,
                asgn.update(
                    lit_var(f[ci]@[jj]),
                    if f[ci]@[jj] > 0 {
                        1i32
                    } else {
                        -1i32
                    },
                ),
            ),
{
    let l = f[ci]@[jj];
    let v = lit_var(l);
    let x: i32 = if l > 0 {
        1i32
    } else {
        -1i32
    };
    assert forall|a: Seq<bool>|
        a.len() == nv + 1 && respects(a, asgn) && formula_holds(a, f) implies respects(
        a,
        asgn.update(v, x),
    ) by {
        assert(clause_holds(a, f[ci]@));
        let j = choose|j: int| 0 <= j < f[ci]@.len() && lit_holds(a, #[trigger] f[ci]@[j]);
        if j != jj {
            let l2 = f[ci]@[j];
            assert(lit_wf(l2, nv));
            assert(lit_falsified(asgn, l2));
            assert(!lit_holds(a, l2));
            assert(false);
        }
        assert(lit_holds(a, l));
        assert(respects(a, asgn.update(v, x)));
    }
}

impl DpllSolver {
    /// Check the entire original formula under the current assignment: true
    /// exactly when every clause has at least one satisfied literal.
    #[verifier::loop_isolation(false)]
    pub fn check_sat(&self) -> (r: bool)
        requires
            self.wf(),
        ensures
            r == formula_sat_under(self.assigned_values@, self.formula@),
    {
        let mut i: usize = 0;
        let mut all = true;
        while i < self.formula.len()
            invariant
                i <= self.formula@.len(),
                all == forall|i2: int|
                    0 <= i2 < i as int ==> clause_sat(
                        self.assigned_values@,
                        #[trigger] self.formula@[i2]@,
                    ),
            decreases self.formula@.len() - i,
        {
            let clause_ok = clause_has_sat_lit(&self.assigned_values, &self.formula[i]);
            if !clause_ok {
                all = false;
            }
            i = i + 1;
        }
        all
    }

    /// The lowest-numbered variable that is still unassigned, or 0 when every
    /// variable already has a value.
    #[verifier::loop_isolation(false)]
    pub fn find_next_variable_to_set(&self) -> (var: Variable)
        requires
            self.wf(),
        ensures
            var != 0 ==> 1 <= var <= self.num_vars && self.assigned_values@[var as int] == 0 && (
            forall|v: int| 1 <= v < var as int ==> #[trigger] self.assigned_values@[v] != 0),
            var == 0 ==> self.unassigned_count == 0,
    {
        let mut v: usize = 1;
        while v <= self.num_vars
            invariant
                1 <= v,
                v as int <= self.num_vars as int + 1,
                forall|v2: int| 1 <= v2 < v as int ==> #[trigger] self.assigned_values@[v2] != 0,
            decreases self.num_vars as int + 1 - v as int,
        {
            if self.assigned_values[v] == 0 {
                return v;
            }
            v = v + 1;
        }
        proof {
            lemma_count_none_zero(self.assigned_values@, self.num_vars as int);
        }
        0
    }
}

impl DpllSolver {
    /// Pure-literal elimination, run to a fixed point: any still-unassigned
    /// variable whose opposite polarity never occurs in the original formula
    /// is committed to the polarity it does occur with. Returns how many
    /// assignments were made. At exit no variable is both unassigned and
    /// pure, and a call on a state already at that fixed point assigns
    /// nothing and changes nothing. Never loses satisfiability: every
    /// satisfying assignment compatible with the state at entry can be
    /// repaired into one compatible with the state at exit.
    #[verifier::loop_isolation(false)]
    pub fn pure_literal_elimination(&mut self) -> (n: usize)
        requires
            old(self).wf(),
        ensures
            final(self).wf(),
            final(self).formula@ == old(self).formula@,
            final(self).num_vars == old(self).num_vars,
            final(self).appearance_counts@ == old(self).appearance_counts@,
            final(self).decision_stack@.len() == old(self).decision_stack@.len() + n,
            final(self).decision_stack@.subrange(0, old(self).decision_stack@.len() as int) == old(self).decision_stack@,
            extendable(
                old(self).assigned_values@,
                old(self).formula@,
                old(self).num_vars as int,
            ) ==> extendable(
                final(self).assigned_values@,
                final(self).formula@,
                final(self).num_vars as int,
            ),
            final(self).no_pure_unassigned(),
            old(self).no_pure_unassigned() ==> n == 0 && final(self).assigned_values@ == old(self).assigned_values@ && final(self).decision_stack@ == old(self).decision_stack@
                && final(self).active_clauses@ == old(self).active_clauses@ && final(self).unassigned_count == old(self).unassigned_count,
    {
        let ghost nv = self.num_vars as int;
        let ghost f = self.formula@;
        let ghost asgn_entry = self.assigned_values@;
        let ghost stack_entry = self.decision_stack@;
        proof {
            assert(self.decision_stack@.subrange(0, stack_entry.len() as int) =~= stack_entry);
        }
        let mut total_eliminations: usize = 0;
        let mut progress = true;
        while progress
            invariant
                self.wf(),
                self.formula@ == f,
                self.num_vars == old(self).num_vars,
                self.appearance_counts@ == old(self).appearance_counts@,
                self.decision_stack@.len() == stack_entry.len() + total_eliminations,
                self.decision_stack@.subrange(0, stack_entry.len() as int) == stack_entry,
                extendable(asgn_entry, f, nv) ==> extendable(self.assigned_values@, f, nv),
                !progress ==> self.no_pure_unassigned(),
                old(self).no_pure_unassigned() ==> total_eliminations == 0
                    && self.assigned_values@ == old(self).assigned_values@
                    && self.decision_stack@ == old(self).decision_stack@
                    && self.active_clauses@ == old(self).active_clauses@
                    && self.unassigned_count == old(self).unassigned_count,
            decreases self.unassigned_count, (if progress {
                1int
            } else {
                0int
            }),
        {
            let mut local_eliminations: usize = 0;
            let ghost unassigned_pass_start = self.unassigned_count;
            let mut i: usize = 1;
            while i <= self.num_vars
                invariant
                    1 <= i,
                    i as int <= nv + 1,
                    self.wf(),
                    self.formula@ == f,
                    self.num_vars == old(self).num_vars,
                    self.appearance_counts@ == old(self).appearance_counts@,
                    local_eliminations as int + self.unassigned_count as int
                        == unassigned_pass_start as int,
                    self.decision_stack@.len() == stack_entry.len() + total_eliminations
                        + local_eliminations,
                    self.decision_stack@.subrange(0, stack_entry.len() as int) == stack_entry,
                    extendable(asgn_entry, f, nv) ==> extendable(self.assigned_values@, f, nv),
                    local_eliminations == 0 ==> forall|v2: int|
                        1 <= v2 < i as int ==> (#[trigger] self.assigned_values@[v2]) != 0 || ((
                        self.appearance_counts@[v2].0 > 0) <==> (self.appearance_counts@[v2].1
                            > 0)),
                    old(self).no_pure_unassigned() ==> local_eliminations == 0
                        && self.assigned_values@ == old(self).assigned_values@
                        && self.decision_stack@ == old(self).decision_stack@
                        && self.active_clauses@ == old(self).active_clauses@
                        && self.unassigned_count == old(self).unassigned_count,
                decreases nv + 1 - i,
            {
                if self.assigned_values[i] == 0 {
                    let entry = self.appearance_counts[i];
                    let ghost asgn_pre = self.assigned_values@;
                    if entry.0 > 0 && entry.1 == 0 {
                        proof {
                            assert forall|i2: int, j: int|
                                0 <= i2 < f.len() && 0 <= j < f[i2]@.len() implies (
                            #[trigger] f[i2]@[j]) as int != -(i as int) by {
                                if f[i2]@[j] as int == -(i as int) {
                                    assert(f[i2]@[j] < 0);
                                    assert(self.appearance_counts@[i as int].1 > 0);
                                }
                            }
                            lemma_pure_literal(asgn_pre, f, nv, i as int, true);
                        }
                        self.set_and_recalculate_params(i, true);
                        local_eliminations = local_eliminations + 1;
                        proof {
                            assert(self.decision_stack@.subrange(0, stack_entry.len() as int)
                                =~= stack_entry);
                        }
                    } else if entry.0 == 0 && entry.1 > 0 {
                        proof {
                            assert forall|i2: int, j: int|
                                0 <= i2 < f.len() && 0 <= j < f[i2]@.len() implies (
                            #[trigger] f[i2]@[j]) as int != i as int by {
                                if f[i2]@[j] as int == i as int {
                                    assert(f[i2]@[j] > 0);
                                    assert(self.appearance_counts@[i as int].0 > 0);
                                }
                            }
                            lemma_pure_literal(asgn_pre, f, nv, i as int, false);
                        }
                        self.set_and_recalculate_params(i, false);
                        local_eliminations = local_eliminations + 1;
                        proof {
                            assert(self.decision_stack@.subrange(0, stack_entry.len() as int)
                                =~= stack_entry);
                        }
                    }
                }
                i = i + 1;
            }
            if local_eliminations == 0 {
                progress = false;
            } else {
                total_eliminations = total_eliminations + local_eliminations;
            }
        }
        total_eliminations
    }
}

impl DpllSolver {
    /// Unit propagation, run to a fixed point: an active clause with exactly
    /// one unassigned literal forces that literal true, which can in turn
    /// create new unit clauses. Returns how many assignments were made. At
    /// exit no active unit clause remains, and a call on a state already at
    /// that fixed point assigns nothing and changes nothing. Every forced
    /// assignment is entailed: any satisfying full assignment compatible with
    /// the state at entry is still compatible with the state at exit.
    #[verifier::loop_isolation(false)]
    pub fn unit_propagation(&mut self) -> (n: usize)
        requires
            old(self).wf(),
        ensures
            final(self).wf(),
            final(self).formula@ == old(self).formula@,
            final(self).num_vars == old(self).num_vars,
            final(self).appearance_counts@ == old(self).appearance_counts@,
            final(self).decision_stack@.len() == old(self).decision_stack@.len() + n,
            final(self).decision_stack@.subrange(0, old(self).decision_stack@.len() as int) == old(self).decision_stack@,
            extendable(
                old(self).assigned_values@,
                old(self).formula@,
                old(self).num_vars as int,
            ) ==> extendable(
                final(self).assigned_values@,
                final(self).formula@,
                final(self).num_vars as int,
            ),
            final(self).no_active_unit(),
            old(self).no_active_unit() ==> n == 0 && final(self).assigned_values@ == old(self).assigned_values@ && final(self).decision_stack@ == old(self).decision_stack@
                && final(self).active_clauses@ == old(self).active_clauses@ && final(self).unassigned_count == old(self).unassigned_count,
            forall|a: Seq<bool>|
                a.len() == old(self).num_vars as int + 1 && respects(a, old(self).assigned_values@)
                    && formula_holds(a, old(self).formula@) ==> respects(
                    a,
                    final(self).assigned_values@,
                ),
    {
        let ghost nv = self.num_vars as int;
        let ghost f = self.formula@;
        let ghost asgn_entry = self.assigned_values@;
        let ghost stack_entry = self.decision_stack@;
        proof {
            assert(self.decision_stack@.subrange(0, stack_entry.len() as int) =~= stack_entry);
        }
        let mut global_updates: usize = 0;
        let mut progress = true;
        while progress
            invariant
                self.wf(),
                self.formula@ == f,
                self.num_vars == old(self).num_vars,
                self.appearance_counts@ == old(self).appearance_counts@,
                self.decision_stack@.len() == stack_entry.len() + global_updates,
                self.decision_stack@.subrange(0, stack_entry.len() as int) == stack_entry,
                extendable(asgn_entry, f, nv) ==> extendable(self.assigned_values@, f, nv),
                !progress ==> self.no_active_unit(),
                old(self).no_active_unit() ==> global_updates == 0 && self.assigned_values@
                    == old(self).assigned_values@ && self.decision_stack@ == old(self).decision_stack@ && self.active_clauses@ == old(self).active_clauses@
                    && self.unassigned_count == old(self).unassigned_count,
                forall|a: Seq<bool>|
                    a.len() == nv + 1 && respects(a, asgn_entry) && formula_holds(a, f)
                        ==> respects(a, self.assigned_values@),
            decreases self.unassigned_count, (if progress {
                1int
            } else {
                0int
            }),
        {
            let mut local_updates: usize = 0;
            let ghost unassigned_pass_start = self.unassigned_count;
            let mut i: usize = 0;
            while i < self.formula.len()
                invariant
                    i <= self.formula@.len(),
                    self.wf(),
                    self.formula@ == f,
                    self.num_vars == old(self).num_vars,
                    self.appearance_counts@ == old(self).appearance_counts@,
                    local_updates as int + self.unassigned_count as int
                        == unassigned_pass_start as int,
                    self.decision_stack@.len() == stack_entry.len() + global_updates
                        + local_updates,
                    self.decision_stack@.subrange(0, stack_entry.len() as int) == stack_entry,
                    extendable(asgn_entry, f, nv) ==> extendable(self.assigned_values@, f, nv),
                    local_updates == 0 ==> forall|i2: int|
                        0 <= i2 < i as int ==> !(#[trigger] self.active_clauses@[i2]) || !is_unit(
                            self.assigned_values@,
                            self.formula@[i2]@,
                        ),
                    old(self).no_active_unit() ==> local_updates == 0 && self.assigned_values@
                        == old(self).assigned_values@ && self.decision_stack@ == old(self).decision_stack@ && self.active_clauses@ == old(self).active_clauses@
                        && self.unassigned_count == old(self).unassigned_count,
                    forall|a: Seq<bool>|
                        a.len() == nv + 1 && respects(a, asgn_entry) && formula_holds(a, f)
                            ==> respects(a, self.assigned_values@),
                decreases self.formula@.len() - i,
            {
                if self.active_clauses[i] {
                    let clause_len = self.formula[i].len();
                    let mut cnt: usize = 0;
                    let mut last: i32 = 0;
                    let ghost mut last_j: int = 0;
                    let mut j: usize = 0;
                    while j < clause_len
                        invariant
                            j <= clause_len,
                            cnt as int <= j as int,
                            cnt as int == count_unassigned_lits(
                                self.assigned_values@,
                                self.formula@[i as int]@.take(j as int),
                            ),
                            cnt == 0 ==> forall|j2: int|
                                0 <= j2 < j as int ==> self.assigned_values@[lit_var(
                                    #[trigger] self.formula@[i as int]@[j2],
                                )] != 0,
                            cnt == 1 ==> 0 <= last_j < j as int && self.formula@[i as int]@[last_j]
                                == last && self.assigned_values@[lit_var(last)] == 0 && (forall|
                                j2: int,
                            |
                                0 <= j2 < j as int && j2 != last_j ==> self.assigned_values@[lit_var(
                                    #[trigger] self.formula@[i as int]@[j2],
                                )] != 0),
                        decreases clause_len - j,
                    {
                        let l = self.formula[i][j];
                        let var: usize = if l > 0 {
                            l as usize
                        } else {
                            (-l) as usize
                        };
                        proof {
                            lemma_count_unassigned_lits_step(
                                self.assigned_values@,
                                self.formula@[i as int]@,
                                j as int,
                            );
                        }
                        if self.assigned_values[var] == 0 {
                            cnt = cnt + 1;
                            last = l;
                            proof {
                                last_j = j as int;
                            }
                        }
                        j = j + 1;
                    }
                    proof {
                        assert(self.formula@[i as int]@.take(clause_len as int)
                            =~= self.formula@[i as int]@);
                    }
                    if cnt == 1 {
                        let var: usize = if last > 0 {
                            last as usize
                        } else {
                            (-last) as usize
                        };
                        let ghost asgn_pre = self.assigned_values@;
                        proof {
                            assert(self.active_clauses@[i as int]);
                            assert(!clause_sat(asgn_pre, f[i as int]@));
                            assert forall|j2: int|
                                0 <= j2 < f[i as int]@.len() && j2 != last_j implies lit_falsified(
                                asgn_pre,
                                #[trigger] f[i as int]@[j2],
                            ) by {
                                let l2 = f[i as int]@[j2];
                                assert(lit_wf(l2, nv));
                                assert(asgn_pre[lit_var(l2)] != 0);
                                assert(!lit_sat(asgn_pre, l2));
                            }
                            assert(lit_wf(last, nv));
                            assert(var as int == lit_var(last));
                            lemma_unit_forced(asgn_pre, f, nv, i as int, last_j);
                        }
                        self.set_and_recalculate_params(var, last > 0);
                        local_updates = local_updates + 1;
                        proof {
                            assert(self.decision_stack@.subrange(0, stack_entry.len() as int)
                                =~= stack_entry);
                            assert forall|a: Seq<bool>|
                                a.len() == nv + 1 && respects(a, asgn_entry) && formula_holds(
                                    a,
                                    f,
                                ) implies respects(a, self.assigned_values@) by {
                                assert(respects(a, asgn_pre));
                            }
                        }
                    }
                }
                i = i + 1;
            }
            if local_updates == 0 {
                progress = false;
            } else {
                global_updates = global_updates + local_updates;
            }
        }
        proof {
            if extendable(asgn_entry, f, nv) {
                let a = choose|a: Seq<bool>|
                    a.len() == nv + 1 && respects(a, asgn_entry) && formula_holds(a, f);
                assert(respects(a, self.assigned_values@));
                assert(extendable(self.assigned_values@, f, nv));
            }
        }
        global_updates
    }
}

impl DpllSolver {
    /// The DPLL decision procedure. Simplify with pure-literal elimination,
    /// then unit propagation; once every variable is assigned, check the
    /// whole original formula; otherwise branch on the lowest unassigned
    /// variable, trying true before false, undoing everything done inside
    /// this call before reporting failure.
    ///
    /// Soundness: a `SAT` verdict comes with a fully assigned state, readable
    /// off the decision stack, whose values satisfy every clause, so the
    /// formula is satisfiable. Completeness: an `UNSAT` verdict restores the
    /// state at entry exactly and rules out every full assignment compatible
    /// with it. The verdict is never `UNKNOWN`.
    pub fn dpll_solve(&mut self) -> (r: SatResult)
        requires
            old(self).wf(),
        ensures
            final(self).wf(),
            final(self).formula@ == old(self).formula@,
            final(self).num_vars == old(self).num_vars,
            final(self).appearance_counts@ == old(self).appearance_counts@,
            r == SatResult::SAT || r == SatResult::UNSAT,
            r == SatResult::SAT ==> final(self).unassigned_count == 0 && final(self).decision_stack@.len() == final(self).num_vars && formula_sat_under(
                final(self).assigned_values@,
                final(self).formula@,
            ) && formula_holds(to_full(final(self).assigned_values@), final(self).formula@)
                && satisfiable(final(self).formula@, final(self).num_vars as int),
            r == SatResult::UNSAT ==> final(self).assigned_values@ == old(self).assigned_values@
                && final(self).decision_stack@ == old(self).decision_stack@ && final(self).active_clauses@ == old(self).active_clauses@ && final(self).unassigned_count == old(self).unassigned_count && !extendable(
                old(self).assigned_values@,
                old(self).formula@,
                old(self).num_vars as int,
            ),
        decreases old(self).unassigned_count,
    {
        let ghost nv = self.num_vars as int;
        let ghost f = self.formula@;
        let ghost s0 = *old(self);
        let n1 = self.pure_literal_elimination();
        let n2 = self.unit_propagation();
        proof {
            assert(self.decision_stack@.len() <= nv);
        }
        let simp = n1 + n2;
        let ghost s1 = *self;
        proof {
            assert(s1.decision_stack@.take(s0.decision_stack@.len() as int)
                =~= s0.decision_stack@);
            assert(s1.unassigned_count <= s0.unassigned_count);
        }
        if self.unassigned_count == 0 {
            if self.check_sat() {
                proof {
                    lemma_full_assignment(self.assigned_values@, f, nv);
                }
                return SatResult::SAT;
            }
            proof {
                lemma_full_assignment(s1.assigned_values@, f, nv);
            }
            self.backtrack(simp);
            proof {
                assert(self.decision_stack@ =~= s0.decision_stack@);
                lemma_state_determined(*self, s0);
            }
            return SatResult::UNSAT;
        }
        let variable = self.find_next_variable_to_set();
        proof {
            assert(variable != 0);
        }
        let ghost v = variable as int;
        self.set_and_recalculate_params(variable, true);
        let ghost s2 = *self;
        let r1 = self.dpll_solve();
        if r1 == SatResult::SAT {
            return SatResult::SAT;
        }
        self.backtrack(1);
        proof {
            assert(self.decision_stack@ =~= s1.decision_stack@);
            lemma_state_determined(*self, s1);
        }
        self.set_and_recalculate_params(variable, false);
        let r2 = self.dpll_solve();
        if r2 == SatResult::SAT {
            return SatResult::SAT;
        }
        self.backtrack(1);
        proof {
            assert(self.decision_stack@ =~= s1.decision_stack@);
            lemma_state_determined(*self, s1);
        }
        self.backtrack(simp);
        proof {
            assert(self.decision_stack@ =~= s0.decision_stack@);
            lemma_state_determined(*self, s0);
            if extendable(s1.assigned_values@, f, nv) {
                lemma_branch(s1.assigned_values@, f, nv, v);
                assert(false);
            }
        }
        SatResult::UNSAT
    }
}

impl DpllSolver {
    /// How many assignments are currently recorded on the decision stack.
    pub fn stack_len(&self) -> (n: usize)
        ensures
            n == self.decision_stack@.len(),
    {
        self.decision_stack.len()
    }

    /// How many variables are still unassigned.
    pub fn unassigned(&self) -> (n: usize)
        ensures
            n == self.unassigned_count,
    {
        self.unassigned_count
    }

    /// The stored value of a variable: positive for true, negative for
    /// false, zero for unassigned.
    pub fn assigned_value(&self, var: Variable) -> (x: i32)
        requires
            self.wf(),
            var <= self.num_vars,
        ensures
            x == self.assigned_values@[var as int],
    {
        self.assigned_values[var]
    }
}

impl DpllSolver {
    /// Pure-literal elimination has reached its fixed point: no variable is
    /// both unassigned and pure (occurring with one polarity only).
    pub open spec fn no_pure_unassigned(self) -> bool {
        forall|v: int|
            1 <= v <= self.num_vars as int && #[trigger] self.assigned_values@[v] == 0 ==> ((
            self.appearance_counts@[v].0 > 0) <==> (self.appearance_counts@[v].1 > 0))
    }

    /// Unit propagation has reached its fixed point: no active clause has
    /// exactly one literal over an unassigned variable.
    pub open spec fn no_active_unit(self) -> bool {
        forall|i: int|
            0 <= i < self.formula@.len() && #[trigger] self.active_clauses@[i] ==> !is_unit(
                self.assigned_values@,
                self.formula@[i]@,
            )
    }
}

/// Extending a scanned prefix of a clause by one literal adjusts the
/// occurrence count of every literal value accordingly.
proof fn lemma_count_lit_in_clause_step(c: Seq<i32>, n: int)
    requires
        0 <= n < c.len(),
    ensures
        forall|l: i32|
            count_lit_in_clause(c.take(n + 1), l) == count_lit_in_clause(c.take(n), l) + (if c[n]
                == l {
                1int
            } else {
                0int
            }),
{
    assert(c.take(n + 1).drop_last() =~= c.take(n));
    assert(c.take(n + 1).last() == c[n]);
}

/// Extending a scanned prefix of the formula by one whole clause adds that
/// clause's occurrence counts.
proof fn lemma_count_lit_step(f: Seq<Vec<i32>>, n: int)
    requires
        0 <= n < f.len(),
    ensures
        forall|l: i32|
            count_lit(f.take(n + 1), l) == count_lit(f.take(n), l) + count_lit_in_clause(
                f[n]@,
                l,
            ),
{
    assert(f.take(n + 1).drop_last() =~= f.take(n));
    assert(f.take(n + 1).last() == f[n]);
}

/// Occurrence counts are never negative.
proof fn lemma_count_lit_in_clause_nonneg(c: Seq<i32>)
    ensures
        forall|l: i32| count_lit_in_clause(c, l) >= 0,
    decreases c.len(),
{
    if c.len() > 0 {
        lemma_count_lit_in_clause_nonneg(c.drop_last());
        assert forall|l: i32| count_lit_in_clause(c, l) >= 0 by {
            assert(count_lit_in_clause(c.drop_last(), l) >= 0);
        }
    }
}

proof fn lemma_count_lit_nonneg(f: Seq<Vec<i32>>)
    ensures
        forall|l: i32| count_lit(f, l) >= 0,
    decreases f.len(),
{
    if f.len() > 0 {
        lemma_count_lit_nonneg(f.drop_last());
        lemma_count_lit_in_clause_nonneg(f.last()@);
        assert forall|l: i32| count_lit(f, l) >= 0 by {
            assert(count_lit(f.drop_last(), l) >= 0);
            assert(count_lit_in_clause(f.last()@, l) >= 0);
        }
    }
}

/// Extending a scanned prefix of a clause by one literal adjusts the number
/// of unassigned literals accordingly.
proof fn lemma_count_unassigned_lits_step(asgn: Seq<i32>, c: Seq<i32>, n: int)
    requires
        0 <= n < c.len(),
    ensures
        count_unassigned_lits(asgn, c.take(n + 1)) == count_unassigned_lits(asgn, c.take(n)) + (
        if asgn[lit_var(c[n])] == 0 {
            1int
        } else {
            0int
        }),
{
    assert(c.take(n + 1).drop_last() =~= c.take(n));
    assert(c.take(n + 1).last() == c[n]);
}

} // verus!
