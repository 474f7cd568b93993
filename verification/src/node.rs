//! Search nodes and the tri-state node evaluator.
//!
//! A node is an immutable snapshot of the search: a formula already
//! simplified against the parent's committed assignment, the decision taken
//! at this node (variable and value), and the assignment as it stood before
//! that decision. The root carries variable `0` as a sentinel and no value.
//! The evaluator classifies a node as conflict, solution, or undetermined
//! against the hypothetical assignment "pre-decision table plus this
//! decision".

use vstd::prelude::*;

use crate::assignment::{asg_at, asg_has, asg_inv, count_unknowns, Assignment};
use crate::formula::{clause_wf, formula_view, formula_wf, lit_var, lit_wf};

verus! {

/// One node of the search tree.
pub struct Node {
    /// The clauses still to satisfy, simplified against the parent's
    /// committed assignment.
    pub formula: Vec<Vec<i32>>,
    /// The value this node decides its variable to; `None` at the root.
    pub value: Option<bool>,
    /// The decided variable; `0` is the root sentinel.
    pub variable: i32,
    /// The assignment before this node's decision is committed.
    pub assignment: Assignment,
}

impl Node {
    /// Bundles the four parts of a search node.
    pub fn new(
        formula: Vec<Vec<i32>>,
        value: Option<bool>,
        variable: i32,
        assignment: Assignment,
    ) -> (r: Node)
        ensures
            r.formula == formula,
            r.value == value,
            r.variable == variable,
            r.assignment == assignment,
    {
        Node { formula, value, variable, assignment }
    }
}

/// What one literal contributes at a node deciding `(v, b)` over the
/// pre-decision table `a`: `Some(true)` satisfies its clause, `Some(false)`
/// counts as falsified, `None` is skipped (an undecided or untracked
/// variable).
pub open spec fn lit_value(
    l: i32,
    v: int,
    b: Option<bool>,
    a: Seq<(i32, Option<bool>)>,
) -> Option<bool> {
    if l > 0 {
        if l as int == v {
            if b == Some(true) {
                Some(true)
            } else {
                Some(false)
            }
        } else if asg_has(a, l as int) {
            match asg_at(a, l as int) {
                None => None,
                Some(true) => Some(true),
                Some(false) => Some(false),
            }
        } else {
            None
        }
    } else {
        if l as int == -v {
            if b == Some(false) {
                Some(true)
            } else {
                Some(false)
            }
        } else if asg_has(a, lit_var(l)) {
            match asg_at(a, lit_var(l)) {
                None => None,
                Some(false) => Some(true),
                Some(true) => Some(false),
            }
        } else {
            None
        }
    }
}

/// A clause every literal of which is falsified: the conflict case. An empty
/// clause is conflicting; a clause with any skipped literal never is.
pub open spec fn clause_conflicting(
    c: Seq<i32>,
    v: int,
    b: Option<bool>,
    a: Seq<(i32, Option<bool>)>,
) -> bool {
    forall|j: int| 0 <= j < c.len() ==> lit_value(#[trigger] c[j], v, b, a) == Some(false)
}

/// A clause some literal of which is satisfied under the hypothetical
/// assignment.
pub open spec fn clause_sat_at(
    c: Seq<i32>,
    v: int,
    b: Option<bool>,
    a: Seq<(i32, Option<bool>)>,
) -> bool {
    exists|j: int| 0 <= j < c.len() && lit_value(#[trigger] c[j], v, b, a) == Some(true)
}

/// Some clause of the node's formula is conflicting.
pub open spec fn node_conflict(n: Node) -> bool {
    exists|i: int|
        0 <= i < n.formula@.len() && clause_conflicting(
            (#[trigger] n.formula@[i])@,
            n.variable as int,
            n.value,
            n.assignment@,
        )
}

/// Every clause of the node's formula is satisfied.
pub open spec fn node_all_sat(n: Node) -> bool {
    forall|i: int|
        0 <= i < n.formula@.len() ==> clause_sat_at(
            (#[trigger] n.formula@[i])@,
            n.variable as int,
            n.value,
            n.assignment@,
        )
}

/// Every variable of the formula has an entry in the assignment table.
pub open spec fn vars_covered(f: Seq<Seq<i32>>, a: Seq<(i32, Option<bool>)>) -> bool {
    forall|p: int, q: int|
        0 <= p < f.len() && 0 <= q < f[p].len() ==> asg_has(a, lit_var(#[trigger] f[p][q]))
}

/// A well-formed node: well-formed formula and table, every formula variable
/// tracked, and the decision consistent — the root carries the sentinel and
/// no value, any other node decides a positive variable that its
/// pre-decision table still holds as Unknown. A root whose table has no
/// Unknown left must already have every clause satisfied.
pub open spec fn node_wf(n: Node) -> bool {
    &&& formula_wf(formula_view(n.formula@))
    &&& asg_inv(n.assignment@)
    &&& vars_covered(formula_view(n.formula@), n.assignment@)
    &&& if n.variable == 0 {
        n.value is None && (count_unknowns(n.assignment@) > 0 || forall|i: int|
            0 <= i < n.formula@.len() ==> crate::formula::clause_sat(
                (#[trigger] n.formula@[i])@,
                n.assignment@,
            ))
    } else {
        n.variable > 0 && n.value is Some && asg_has(n.assignment@, n.variable as int) && asg_at(
            n.assignment@,
            n.variable as int,
        ) is None
    }
}

/// The termination measure of a node: how many decisions can still be taken
/// below it, with the root one step ahead of its first decision.
pub open spec fn node_measure(n: Node) -> nat {
    2 * count_unknowns(n.assignment@) + (if n.variable == 0 {
        1nat
    } else {
        0nat
    })
}

/// Classifies one clause at the node's hypothetical assignment:
/// `0` conflicting, `2` satisfied, `1` neither.
fn eval_clause(c: &Vec<i32>, v: i32, b: Option<bool>, assignment: &Assignment) -> (r: i32)
    requires
        clause_wf(c@),
        asg_inv(assignment@),
        v >= 0,
    ensures
        (r == 0) == clause_conflicting(c@, v as int, b, assignment@),
        (r == 2) == clause_sat_at(c@, v as int, b, assignment@),
        r == 0 || r == 1 || r == 2,
{
    let n = c.len();
    let mut j: usize = 0;
    let mut all_false = true;
    while j < n
        invariant
            clause_wf(c@),
            asg_inv(assignment@),
            v >= 0,
            n == c@.len(),
            j <= n,
            forall|m: int| 0 <= m < j ==> lit_value(#[trigger] c@[m], v as int, b, assignment@)
                != Some(true),
            all_false <==> forall|m: int|
                0 <= m < j ==> lit_value(#[trigger] c@[m], v as int, b, assignment@) == Some(
                    false,
                ),
        decreases n - j,
    {
        let l = c[j];
        let ghost lv = lit_value(l, v as int, b, assignment@);
        if l > 0 {
            if l == v {
                if b == Some(true) {
                    proof {
                        assert(lv == Some(true));
                    }
                    return 2;
                } else {
                    proof {
                        assert(lv == Some(false));
                    }
                }
            } else {
                match assignment.get(l) {
                    Some(Some(true)) => {
                        proof {
                            assert(lv == Some(true));
                        }
                        return 2;
                    },
                    Some(Some(false)) => {
                        proof {
                            assert(lv == Some(false));
                        }
                    },
                    Some(None) => {
                        all_false = false;
                        proof {
                            assert(lv is None);
                        }
                    },
                    None => {
                        all_false = false;
                        proof {
                            assert(lv is None);
                        }
                    },
                }
            }
        } else {
            let neg = crate::formula::var_of(l);
            if l == 0 - v {
                if b == Some(false) {
                    proof {
                        assert(lv == Some(true));
                    }
                    return 2;
                } else {
                    proof {
                        assert(lv == Some(false));
                    }
                }
            } else {
                match assignment.get(neg) {
                    Some(Some(false)) => {
                        proof {
                            assert(lv == Some(true));
                        }
                        return 2;
                    },
                    Some(Some(true)) => {
                        proof {
                            assert(lv == Some(false));
                        }
                    },
                    Some(None) => {
                        all_false = false;
                        proof {
                            assert(lv is None);
                        }
                    },
                    None => {
                        all_false = false;
                        proof {
                            assert(lv is None);
                        }
                    },
                }
            }
        }
        j = j + 1;
    }
    if all_false {
        0
    } else {
        1
    }
}

/// The node evaluator: `0` when some clause is conflicting (the branch is
/// dead), `2` when every clause is satisfied (a solution), `1` otherwise
/// (the search must go on).
pub fn false_check(node: &Node) -> (r: i32)
    requires
        formula_wf(formula_view(node.formula@)),
        asg_inv(node.assignment@),
        node.variable >= 0,
    ensures
        (r == 0) == node_conflict(*node),
        (r == 2) == (!node_conflict(*node) && node_all_sat(*node)),
        (r == 1) == (!node_conflict(*node) && !node_all_sat(*node)),
{
    let n = node.formula.len();
    let mut i: usize = 0;
    let mut all_sat = true;
    while i < n
        invariant
            formula_wf(formula_view(node.formula@)),
            asg_inv(node.assignment@),
            node.variable >= 0,
            n == node.formula@.len(),
            i <= n,
            forall|m: int|
                0 <= m < i ==> !clause_conflicting(
                    (#[trigger] node.formula@[m])@,
                    node.variable as int,
                    node.value,
                    node.assignment@,
                ),
            all_sat <==> forall|m: int|
                0 <= m < i ==> clause_sat_at(
                    (#[trigger] node.formula@[m])@,
                    node.variable as int,
                    node.value,
                    node.assignment@,
                ),
        decreases n - i,
    {
        proof {
            assert(formula_view(node.formula@)[i as int] == node.formula@[i as int]@);
            assert(clause_wf(node.formula@[i as int]@));
        }
        let c = eval_clause(&node.formula[i], node.variable, node.value, &node.assignment);
        if c == 0 {
            return 0;
        }
        if c != 2 {
            all_sat = false;
        }
        i = i + 1;
    }
    if all_sat {
        2
    } else {
        1
    }
}

} // verus!
