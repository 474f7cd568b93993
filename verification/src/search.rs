//! The search driver: depth-first branching with an explicit stack of
//! deferred false-branches and chronological backtracking.
//!
//! Expanding a node either reports a conflict (the branch is dead), emits a
//! solution, or commits the node's decision, simplifies the formula, and
//! branches on the least Unknown variable: the false-branch is deferred on
//! the stack, the true-branch is explored at once. The driver pops deferred
//! branches until a solution appears or the stack runs dry, which is the
//! UNSATISFIABLE verdict.

use vstd::prelude::*;

use crate::assignment::{
    asg_at, asg_has, asg_inv, asg_sorted, count_unknowns, extends_committed, get_assignment_keys,
    lemma_at_entry, lemma_next_decision_is_least, lemma_no_unknowns_all_committed,
    lemma_unknown_keys_membership, same_keys, unknown_keys, Assignment,
};
use crate::formula::{
    clause_sat, clause_wf, copy_formula, formula_view, formula_wf, initial_assignment, is_pure,
    lemma_clause_sat_monotone, lemma_simplify_complete, lemma_simplify_members, lit_sat, lit_var,
    lit_wf, occurs_with, pure_literal_elimination, simplify_formula, spec_simplify,
    var_in_formula,
};
use crate::node::{
    clause_conflicting, clause_sat_at, false_check, lit_value, node_all_sat, node_conflict,
    node_measure, node_wf, Node,
};

verus! {

/// Powers of two: the budget of node expansions a search state can still
/// cause.
pub open spec fn two_to(n: nat) -> nat
    decreases n,
{
    if n == 0 {
        1
    } else {
        2 * two_to((n - 1) as nat)
    }
}

proof fn lemma_two_to_pos(n: nat)
    ensures
        two_to(n) >= 1,
    decreases n,
{
    if n > 0 {
        lemma_two_to_pos((n - 1) as nat);
    }
}

/// The pending work of a stack, counted in node expansions: the sum of
/// `two_to(node_measure(n))` over its entries. With `k` Unknowns left after
/// preprocessing the whole search starts below `two_to(2k + 1)`.
pub open spec fn stack_weight(s: Seq<Node>) -> nat
    decreases s.len(),
{
    if s.len() == 0 {
        0
    } else {
        stack_weight(s.drop_last()) + two_to(node_measure(s.last()))
    }
}

proof fn lemma_stack_weight_push(s: Seq<Node>, n: Node)
    ensures
        stack_weight(s.push(n)) == stack_weight(s) + two_to(node_measure(n)),
{
    assert(s.push(n).drop_last() =~= s);
    assert(s.push(n).last() == n);
}

/// What expansion guarantees of every node it defers: the child commits
/// everything its parent had committed, tracks the same variables, and keeps
/// every parent clause that its own assignment does not already satisfy.
pub open spec fn derived_from(parent: Node, child: Node) -> bool {
    &&& extends_committed(parent.assignment@, child.assignment@)
    &&& same_keys(parent.assignment@, child.assignment@)
    &&& forall|i: int|
        0 <= i < parent.formula@.len() ==> formula_view(child.formula@).contains(
            (#[trigger] parent.formula@[i])@,
        ) || clause_sat(parent.formula@[i]@, child.assignment@)
}

proof fn lemma_derived_trans(a: Node, b: Node, c: Node)
    requires
        derived_from(a, b),
        derived_from(b, c),
    ensures
        derived_from(a, c),
{
    assert forall|i: int| 0 <= i < a.formula@.len() implies formula_view(c.formula@).contains(
        (#[trigger] a.formula@[i])@,
    ) || clause_sat(a.formula@[i]@, c.assignment@) by {
        let cl = a.formula@[i]@;
        if formula_view(b.formula@).contains(cl) {
            let j = choose|j: int|
                0 <= j < formula_view(b.formula@).len() && formula_view(b.formula@)[j] == cl;
            assert(formula_view(b.formula@)[j] == b.formula@[j]@);
            assert(formula_view(c.formula@).contains(b.formula@[j]@) || clause_sat(
                b.formula@[j]@,
                c.assignment@,
            ));
        } else {
            lemma_clause_sat_monotone(cl, b.assignment@, c.assignment@);
        }
    }
}

/// A total table: every tracked variable has a definite value.
pub open spec fn total_table(t: Seq<(i32, Option<bool>)>) -> bool {
    forall|k: int| asg_has(t, k) ==> (#[trigger] asg_at(t, k)) is Some
}

/// Every clause of `f` has a literal true under `t`.
pub open spec fn sat_formula(f: Seq<Seq<i32>>, t: Seq<(i32, Option<bool>)>) -> bool {
    forall|i: int| 0 <= i < f.len() ==> clause_sat(#[trigger] f[i], t)
}

/// The table agrees with the node: it extends every committed entry and
/// gives the decided variable the decided value.
pub open spec fn decision_extends(n: Node, t: Seq<(i32, Option<bool>)>) -> bool {
    &&& extends_committed(n.assignment@, t)
    &&& (n.variable != 0 ==> asg_has(t, n.variable as int) && asg_at(t, n.variable as int)
        == n.value)
}

/// The branch below `n` can still reach the total table `t`: the table
/// agrees with the node's decisions and satisfies what is left of its
/// formula. Completeness rests on this: every satisfying table the search
/// has not excluded is covered by some pending node.
pub open spec fn covers(n: Node, t: Seq<(i32, Option<bool>)>) -> bool {
    &&& asg_inv(t)
    &&& same_keys(n.assignment@, t)
    &&& total_table(t)
    &&& decision_extends(n, t)
    &&& sat_formula(formula_view(n.formula@), t)
}

/// A literal the evaluator counts as falsified is false under every total
/// table that agrees with the node's decision.
proof fn lemma_false_lit_stays_false(
    l: i32,
    v: int,
    b: Option<bool>,
    a: Seq<(i32, Option<bool>)>,
    t: Seq<(i32, Option<bool>)>,
)
    requires
        lit_wf(l),
        v > 0,
        b is Some,
        lit_value(l, v, b, a) == Some(false),
        extends_committed(a, t),
        asg_has(t, v),
        asg_at(t, v) == b,
    ensures
        !lit_sat(l, t),
{
    if l > 0 {
        if l as int == v {
            assert(b == Some(false));
        } else {
            assert(asg_at(a, l as int) == Some(false));
        }
    } else {
        if l as int == -v {
            assert(b == Some(true));
            assert(lit_var(l) == v);
        } else {
            assert(asg_at(a, lit_var(l)) == Some(true));
        }
    }
}

/// A satisfying assignment for a node: a total table over the node's
/// variables, extending its committed values, under which every clause of
/// the node's formula has a true literal.
pub open spec fn solution_for(n: Node, sol: Seq<(i32, Option<bool>)>) -> bool {
    &&& asg_inv(sol)
    &&& same_keys(n.assignment@, sol)
    &&& extends_committed(n.assignment@, sol)
    &&& forall|k: int| asg_has(sol, k) ==> (#[trigger] asg_at(sol, k)) is Some
    &&& forall|i: int| 0 <= i < n.formula@.len() ==> clause_sat((#[trigger] n.formula@[i])@, sol)
}

/// The node keeps every clause of `g` that its assignment does not already
/// satisfy.
pub open spec fn node_covers(n: Node, g: Seq<Seq<i32>>) -> bool {
    forall|i: int|
        0 <= i < g.len() ==> formula_view(n.formula@).contains(#[trigger] g[i]) || clause_sat(
            g[i],
            n.assignment@,
        )
}

/// The node's table tracks exactly the variables of `g`.
pub open spec fn keys_match(n: Node, g: Seq<Seq<i32>>) -> bool {
    forall|k: int| #![trigger asg_has(n.assignment@, k)] #![trigger var_in_formula(g, k)]
        asg_has(n.assignment@, k) <==> var_in_formula(g, k)
}

/// Defers a branch on the work stack.
pub fn add_task(node: Node, tasklist: &mut Vec<Node>)
    ensures
        final(tasklist)@ == old(tasklist)@.push(node),
{
    tasklist.push(node);
}

/// Takes the most recently deferred branch off the work stack.
pub fn get_task(tasklist: &mut Vec<Node>) -> (r: Option<Node>)
    ensures
        old(tasklist)@.len() == 0 ==> r is None && final(tasklist)@ == old(tasklist)@,
        old(tasklist)@.len() > 0 ==> r == Some(old(tasklist)@.last()) && final(tasklist)@ == old(
            tasklist,
        )@.drop_last(),
{
    tasklist.pop()
}

/// An Unknown entry forces a positive unknown count.
proof fn lemma_unknown_gives_count(s: Seq<(i32, Option<bool>)>, k: int)
    requires
        asg_inv(s),
        asg_has(s, k),
        asg_at(s, k) is None,
    ensures
        count_unknowns(s) > 0,
{
    let j = choose|j: int| 0 <= j < s.len() && (#[trigger] s[j]).0 == k;
    lemma_at_entry(s, j);
    lemma_unknown_keys_membership(s, s[j].0);
    assert(s[j] == (s[j].0, None::<bool>));
    assert(unknown_keys(s).contains(s[j].0));
}

/// A literal that satisfies its clause at the node's hypothetical assignment
/// stays satisfied in any total table that records the node's decision and
/// extends the committed entries.
proof fn lemma_sat_lit_persists(
    l: i32,
    v: int,
    b: Option<bool>,
    a: Seq<(i32, Option<bool>)>,
    sol: Seq<(i32, Option<bool>)>,
)
    requires
        lit_wf(l),
        v > 0,
        lit_value(l, v, b, a) == Some(true),
        extends_committed(a, sol),
        asg_has(sol, v),
        asg_at(sol, v) == b,
    ensures
        lit_sat(l, sol),
{
    if l > 0 {
        if l as int == v {
        } else {
            assert(asg_at(a, l as int) == Some(true));
        }
    } else {
        if l as int == -v {
            assert(lit_var(l) == v);
        } else {
            assert(asg_at(a, lit_var(l)) == Some(false));
        }
    }
}

/// Expands one node and drives the depth-first search below it.
///
/// The result is `Some(solution)` exactly when the subtree rooted at `node`,
/// together with nothing else, yields a satisfying assignment: the solution
/// is total over the node's variables, extends its committed values, and
/// satisfies every clause of the node's formula. `None` reports a dead
/// branch to the caller; the alternate branches this call deferred on
/// `tasklist` are all well-formed and derived from `node`, and the pending
/// work they add stays below this node's own expansion budget.
pub fn build_search_tree(node: Node, tasklist: &mut Vec<Node>) -> (r: Option<Assignment>)
    requires
        node_wf(node),
    ensures
        final(tasklist)@.len() >= old(tasklist)@.len(),
        forall|i: int| 0 <= i < old(tasklist)@.len() ==> final(tasklist)@[i] == old(tasklist)@[i],
        forall|i: int|
            old(tasklist)@.len() <= i < final(tasklist)@.len() ==> node_wf(
                #[trigger] final(tasklist)@[i],
            ) && derived_from(node, final(tasklist)@[i]),
        stack_weight(final(tasklist)@) < stack_weight(old(tasklist)@) + two_to(node_measure(node)),
        r matches Some(sol) ==> solution_for(node, sol@),
        r is None ==> forall|t: Seq<(i32, Option<bool>)>|
            #[trigger] covers(node, t) ==> exists|i: int|
                old(tasklist)@.len() <= i < final(tasklist)@.len() && covers(
                    final(tasklist)@[i],
                    t,
                ),
    decreases node_measure(node),
{
    proof {
        lemma_two_to_pos(node_measure(node));
    }
    let ghost fv = formula_view(node.formula@);
    let ghost a = node.assignment@;
    let ghost t0 = tasklist@;
    if node.variable == 0 {
        let unassigned_var = get_assignment_keys(&node.assignment);
        if unassigned_var.len() == 0 {
            // Nothing is left to decide. Well-formedness of a root with no
            // Unknowns says every clause is already satisfied, so the
            // committed table itself is the solution.
            let mut solution = node.assignment.duplicate();
            solution.default_unknowns();
            proof {
                assert(count_unknowns(a) == 0);
                assert forall|i: int| 0 <= i < node.formula@.len() implies clause_sat(
                    (#[trigger] node.formula@[i])@,
                    solution@,
                ) by {
                    assert(clause_sat(node.formula@[i]@, a));
                    lemma_clause_sat_monotone(node.formula@[i]@, a, solution@);
                }
            }
            return Some(solution);
        }
        let d = unassigned_var[0];
        proof {
            lemma_next_decision_is_least(a);
            assert(unknown_keys(a)[0] == d);
            assert(asg_has(a, d as int) && asg_at(a, d as int) is None);
            let j = choose|j: int| 0 <= j < a.len() && (#[trigger] a[j]).0 == d as int;
            assert(a[j].0 > 0);
        }
        let node_t = Node::new(
            copy_formula(&node.formula),
            Some(true),
            d,
            node.assignment.duplicate(),
        );
        let node_f = Node::new(
            copy_formula(&node.formula),
            Some(false),
            d,
            node.assignment.duplicate(),
        );
        proof {
            assert(formula_view(node_t.formula@) == fv);
            assert(formula_view(node_f.formula@) == fv);
            assert(node_wf(node_t));
            assert(node_wf(node_f));
            assert forall|i: int| 0 <= i < node.formula@.len() implies formula_view(
                node_t.formula@,
            ).contains((#[trigger] node.formula@[i])@) || clause_sat(
                node.formula@[i]@,
                node_t.assignment@,
            ) by {
                assert(formula_view(node_t.formula@)[i] == node.formula@[i]@);
            }
            assert forall|i: int| 0 <= i < node.formula@.len() implies formula_view(
                node_f.formula@,
            ).contains((#[trigger] node.formula@[i])@) || clause_sat(
                node.formula@[i]@,
                node_f.assignment@,
            ) by {
                assert(formula_view(node_f.formula@)[i] == node.formula@[i]@);
            }
            assert(derived_from(node, node_t));
            assert(derived_from(node, node_f));
            assert(node_measure(node_t) == 2 * count_unknowns(a));
            assert(node_measure(node_f) == 2 * count_unknowns(a));
            assert(node_measure(node) == 2 * count_unknowns(a) + 1);
            assert(two_to(2 * count_unknowns(a)) + two_to(2 * count_unknowns(a)) == two_to(
                2 * count_unknowns(a) + 1,
            ));
        }
        let ghost ndt = node_t;
        let ghost ndf = node_f;
        add_task(node_f, tasklist);
        proof {
            lemma_stack_weight_push(t0, node_f);
        }
        let ghost t1 = tasklist@;
        let res = build_search_tree(node_t, tasklist);
        proof {
            assert forall|i: int|
                t0.len() <= i < final(tasklist)@.len() implies node_wf(
                #[trigger] final(tasklist)@[i],
            ) && derived_from(node, final(tasklist)@[i]) by {
                if i < t1.len() {
                    assert(final(tasklist)@[i] == t1[i]);
                    assert(t1[i] == node_f);
                } else {
                    lemma_derived_trans(node, ndt, final(tasklist)@[i]);
                }
            }
            if res is None {
                // completeness: a total table the root can still reach picks
                // one of the two values for `d`, and the matching child
                // covers it
                assert forall|t: Seq<(i32, Option<bool>)>| covers(node, t) implies exists|i: int|
                    t0.len() <= i < final(tasklist)@.len() && covers(final(tasklist)@[i], t) by {
                    assert(asg_has(t, d as int));
                    assert(asg_at(t, d as int) is Some);
                    if asg_at(t, d as int) == Some(true) {
                        assert(covers(ndt, t));
                        let i = choose|i: int|
                            t1.len() <= i < final(tasklist)@.len() && covers(
                                final(tasklist)@[i],
                                t,
                            );
                        assert(t0.len() <= i < final(tasklist)@.len() && covers(
                            final(tasklist)@[i],
                            t,
                        ));
                    } else {
                        assert(asg_at(t, d as int) == Some(false));
                        assert(covers(ndf, t));
                        assert(final(tasklist)@[t0.len() as int] == t1[t0.len() as int]);
                        assert(t1[t0.len() as int] == ndf);
                    }
                }
            }
            if res is Some {
                let sol = res->0;
                assert(solution_for(ndt, sol@));
                assert forall|i: int| 0 <= i < node.formula@.len() implies clause_sat(
                    (#[trigger] node.formula@[i])@,
                    sol@,
                ) by {
                    assert(formula_view(ndt.formula@)[i] == ndt.formula@[i]@);
                    assert(ndt.formula@[i]@ == node.formula@[i]@);
                }
                assert(solution_for(node, sol@));
            }
        }
        return res;
    }
    // a decision node: evaluate it once and act on the classification
    let eval = false_check(&node);
    let ghost v = node.variable as int;
    let ghost b = node.value;
    if eval == 0 {
        // conflict: some clause is falsified outright by committed values
        // and this decision, so no total table below this node satisfies
        // it; the branch is dead and the caller backtracks
        proof {
            assert forall|t: Seq<(i32, Option<bool>)>| !covers(node, t) by {
                if covers(node, t) {
                    let m = choose|m: int|
                        0 <= m < node.formula@.len() && clause_conflicting(
                            (#[trigger] node.formula@[m])@,
                            v,
                            b,
                            a,
                        );
                    let c = node.formula@[m]@;
                    assert(fv[m] == c);
                    assert(clause_wf(c));
                    assert(clause_sat(c, t));
                    let j = choose|j: int| 0 <= j < c.len() && lit_sat(#[trigger] c[j], t);
                    assert(lit_value(c[j], v, b, a) == Some(false));
                    lemma_false_lit_stays_false(c[j], v, b, a, t);
                }
            }
        }
        return None;
    } else if eval == 2 {
        // solution: commit this decision, default the unconstrained
        // variables to True, and report
        let mut solution = node.assignment.duplicate();
        solution.put(node.variable, node.value);
        solution.default_unknowns();
        proof {
            assert(node_all_sat(node));
            assert forall|i: int| 0 <= i < node.formula@.len() implies clause_sat(
                (#[trigger] node.formula@[i])@,
                solution@,
            ) by {
                let c = node.formula@[i]@;
                assert(clause_sat_at(c, v, b, a));
                let j = choose|j: int| 0 <= j < c.len() && lit_value(#[trigger] c[j], v, b, a)
                    == Some(true);
                assert(fv[i] == c);
                assert(clause_wf(c));
                lemma_sat_lit_persists(c[j], v, b, a, solution@);
            }
            assert(solution_for(node, solution@));
        }
        return Some(solution);
    }
    // undetermined: commit the decision and branch further down
    let mut new_assignment = node.assignment.duplicate();
    new_assignment.put(node.variable, node.value);
    let ghost na = new_assignment@;
    proof {
        assert(extends_committed(a, na));
        assert(count_unknowns(na) == count_unknowns(a) - 1);
    }
    let new_formula = simplify_formula(&node.formula, &new_assignment);
    let ghost nfv = formula_view(new_formula@);
    let unassigned_var = get_assignment_keys(&new_assignment);
    if unassigned_var.len() == 0 {
        // No Unknown variable is left after this commit: treat the node as
        // solved rather than index an empty candidate list. The case cannot
        // actually arise: an undetermined node always has a clause with a
        // skipped literal, and that literal's variable is still Unknown.
        proof {
            assert(!node_all_sat(node) && !node_conflict(node));
            assert(exists|i: int|
                0 <= i < node.formula@.len() && !clause_sat_at(
                    (#[trigger] node.formula@[i])@,
                    v,
                    b,
                    a,
                ));
            let i = choose|i: int|
                0 <= i < node.formula@.len() && !clause_sat_at(
                    (#[trigger] node.formula@[i])@,
                    v,
                    b,
                    a,
                );
            let c = node.formula@[i]@;
            assert(!clause_conflicting(c, v, b, a));
            let j = choose|j: int| 0 <= j < c.len() && lit_value(#[trigger] c[j], v, b, a)
                != Some(false);
            let l = c[j];
            assert(lit_value(l, v, b, a) != Some(true));
            assert(fv[i] == c);
            assert(lit_wf(l));
            assert(asg_has(a, lit_var(l)));
            if l > 0 {
                assert(asg_at(a, l as int) is None);
                assert(lit_var(l) != v);
            } else {
                assert(asg_at(a, lit_var(l)) is None);
                assert(lit_var(l) != v);
            }
            assert(asg_has(na, lit_var(l)) && asg_at(na, lit_var(l)) is None);
            lemma_unknown_gives_count(na, lit_var(l));
            assert(unknown_keys(na).len() > 0);
            assert(false);
        }
        let mut solution = new_assignment;
        solution.default_unknowns();
        return Some(solution);
    }
    let d = unassigned_var[0];
    proof {
        lemma_next_decision_is_least(na);
        assert(unknown_keys(na)[0] == d);
        assert(asg_has(na, d as int) && asg_at(na, d as int) is None);
        let j = choose|j: int| 0 <= j < na.len() && (#[trigger] na[j]).0 == d as int;
        assert(na[j].0 > 0);
        // the simplified formula is well-formed and fully tracked
        lemma_simplify_members(fv, na);
        assert(nfv == spec_simplify(fv, na));
        assert forall|p: int| 0 <= p < nfv.len() implies clause_wf(#[trigger] nfv[p]) by {
            let q = choose|q: int| 0 <= q < fv.len() && fv[q] == nfv[p];
            assert(clause_wf(fv[q]));
        }
        assert forall|p: int, q: int|
            0 <= p < nfv.len() && 0 <= q < nfv[p].len() implies asg_has(
            na,
            lit_var(#[trigger] nfv[p][q]),
        ) by {
            let w = choose|w: int| 0 <= w < fv.len() && fv[w] == nfv[p];
            assert(asg_has(a, lit_var(fv[w][q])));
        }
        lemma_unknown_gives_count(a, v);
    }
    let node_t = Node::new(
        copy_formula(&new_formula),
        Some(true),
        d,
        new_assignment.duplicate(),
    );
    let node_f = Node::new(new_formula, Some(false), d, new_assignment);
    proof {
        assert(formula_view(node_t.formula@) == nfv);
        assert(formula_view(node_f.formula@) == nfv);
        assert(node_wf(node_t));
        assert(node_wf(node_f));
        lemma_simplify_complete(fv, na);
        assert forall|i: int| 0 <= i < node.formula@.len() implies formula_view(
            node_t.formula@,
        ).contains((#[trigger] node.formula@[i])@) || clause_sat(
            node.formula@[i]@,
            node_t.assignment@,
        ) by {
            assert(fv[i] == node.formula@[i]@);
            assert(clause_sat(fv[i], na) || spec_simplify(fv, na).contains(fv[i]));
        }
        assert forall|i: int| 0 <= i < node.formula@.len() implies formula_view(
            node_f.formula@,
        ).contains((#[trigger] node.formula@[i])@) || clause_sat(
            node.formula@[i]@,
            node_f.assignment@,
        ) by {
            assert(fv[i] == node.formula@[i]@);
            assert(clause_sat(fv[i], na) || spec_simplify(fv, na).contains(fv[i]));
        }
        assert(derived_from(node, node_t));
        assert(derived_from(node, node_f));
        let u = count_unknowns(a);
        assert(node_measure(node) == 2 * u);
        assert(node_measure(node_t) == 2 * (u - 1));
        assert(node_measure(node_f) == 2 * (u - 1));
        assert(two_to(2 * (u - 1) as nat) + two_to(2 * (u - 1) as nat) == two_to(
            (2 * u - 1) as nat,
        ));
        lemma_two_to_pos((2 * u - 1) as nat);
        assert(two_to(2 * u) == 2 * two_to((2 * u - 1) as nat));
    }
    let ghost ndt = node_t;
    let ghost ndf = node_f;
    add_task(node_f, tasklist);
    proof {
        lemma_stack_weight_push(t0, node_f);
    }
    let ghost t1 = tasklist@;
    let res = build_search_tree(node_t, tasklist);
    proof {
        assert forall|i: int|
            t0.len() <= i < final(tasklist)@.len() implies node_wf(#[trigger] final(tasklist)@[i])
            && derived_from(node, final(tasklist)@[i]) by {
            if i < t1.len() {
                assert(final(tasklist)@[i] == t1[i]);
                assert(derived_from(node, t1[i]));
            } else {
                lemma_derived_trans(node, ndt, final(tasklist)@[i]);
            }
        }
        if res is None {
            // completeness: a total table this node can still reach records
            // this decision, so it extends the committed table, satisfies
            // the simplified formula, and picks one value for `d` — the
            // matching child covers it
            assert forall|t: Seq<(i32, Option<bool>)>| covers(node, t) implies exists|i: int|
                t0.len() <= i < final(tasklist)@.len() && covers(final(tasklist)@[i], t) by {
                assert(asg_at(t, v) == node.value);
                assert(extends_committed(na, t)) by {
                    assert forall|k: int|
                        asg_has(na, k) && (#[trigger] asg_at(na, k)) is Some implies asg_has(t, k)
                        && asg_at(t, k) == asg_at(na, k) by {
                        if k == v {
                            assert(asg_at(na, k) == node.value);
                        } else {
                            assert(asg_at(na, k) == asg_at(a, k));
                            assert(asg_has(a, k));
                        }
                    }
                }
                assert(same_keys(na, t)) by {
                    assert forall|k: int| asg_has(na, k) <==> asg_has(t, k) by {
                        assert(asg_has(na, k) <==> asg_has(a, k));
                        assert(asg_has(a, k) <==> asg_has(t, k));
                    }
                }
                assert(sat_formula(nfv, t)) by {
                    assert forall|i: int| 0 <= i < nfv.len() implies clause_sat(
                        #[trigger] nfv[i],
                        t,
                    ) by {
                        let j = choose|j: int| 0 <= j < fv.len() && fv[j] == nfv[i];
                        assert(clause_sat(fv[j], t));
                    }
                }
                assert(asg_has(t, d as int));
                assert(asg_at(t, d as int) is Some);
                if asg_at(t, d as int) == Some(true) {
                    assert(covers(ndt, t));
                    let i = choose|i: int|
                        t1.len() <= i < final(tasklist)@.len() && covers(final(tasklist)@[i], t);
                    assert(t0.len() <= i < final(tasklist)@.len() && covers(
                        final(tasklist)@[i],
                        t,
                    ));
                } else {
                    assert(asg_at(t, d as int) == Some(false));
                    assert(covers(ndf, t));
                    assert(final(tasklist)@[t0.len() as int] == t1[t0.len() as int]);
                    assert(t1[t0.len() as int] == ndf);
                }
            }
        }
        if res is Some {
            let sol = res->0;
            assert(solution_for(ndt, sol@));
            assert(extends_committed(a, sol@)) by {
                assert forall|k: int|
                    asg_has(a, k) && (#[trigger] asg_at(a, k)) is Some implies asg_has(sol@, k)
                    && asg_at(sol@, k) == asg_at(a, k) by {
                    assert(asg_has(na, k) && asg_at(na, k) == asg_at(a, k));
                }
            }
            assert forall|i: int| 0 <= i < node.formula@.len() implies clause_sat(
                (#[trigger] node.formula@[i])@,
                sol@,
            ) by {
                assert(fv[i] == node.formula@[i]@);
                if spec_simplify(fv, na).contains(fv[i]) {
                    let j = choose|j: int| 0 <= j < nfv.len() && nfv[j] == fv[i];
                    assert(formula_view(ndt.formula@)[j] == ndt.formula@[j]@);
                    assert(clause_sat(ndt.formula@[j]@, sol@));
                } else {
                    assert(clause_sat(fv[i], na));
                    lemma_clause_sat_monotone(fv[i], na, sol@);
                }
            }
            assert(solution_for(node, sol@));
        }
    }
    res
}

/// The total tables brute-force enumeration ranges over: a definite value
/// for exactly the variables of the formula.
pub open spec fn table_for(g: Seq<Seq<i32>>, t: Seq<(i32, Option<bool>)>) -> bool {
    &&& asg_inv(t)
    &&& total_table(t)
    &&& forall|k: int| #![trigger asg_has(t, k)] #![trigger var_in_formula(g, k)]
        asg_has(t, k) <==> var_in_formula(g, k)
}

/// The table with every pure variable of `g` re-pointed at the value that
/// satisfies all its occurrences.
pub open spec fn purify(g: Seq<Seq<i32>>, t: Seq<(i32, Option<bool>)>) -> Seq<
    (i32, Option<bool>),
> {
    t.map(
        |i: int, e: (i32, Option<bool>)|
            if is_pure(g, e.0 as int) {
                (e.0, Some(occurs_with(g, e.0 as int, true)))
            } else {
                e
            },
    )
}

/// Re-pointing the pure variables of a satisfying total table at their
/// preferred polarity keeps it total and satisfying: every occurrence of a
/// pure variable carries the one polarity the new value makes true.
proof fn lemma_purify(g: Seq<Seq<i32>>, t: Seq<(i32, Option<bool>)>)
    requires
        formula_wf(g),
        asg_inv(t),
        total_table(t),
        sat_formula(g, t),
    ensures
        asg_inv(purify(g, t)),
        total_table(purify(g, t)),
        same_keys(t, purify(g, t)),
        sat_formula(g, purify(g, t)),
        forall|k: int|
            is_pure(g, k) && asg_has(t, k) ==> asg_at(purify(g, t), k) == Some(
                occurs_with(g, k, true),
            ),
        forall|k: int|
            !is_pure(g, k) && asg_has(t, k) ==> asg_at(purify(g, t), k) == asg_at(t, k),
{
    let tp = purify(g, t);
    assert(tp.len() == t.len());
    assert(forall|i: int| 0 <= i < t.len() ==> (#[trigger] tp[i]).0 == t[i].0);
    assert(asg_sorted(tp));
    assert(forall|i: int| 0 <= i < tp.len() ==> (#[trigger] tp[i]).0 > 0);
    assert forall|k: int| asg_has(t, k) <==> asg_has(tp, k) by {
        if asg_has(t, k) {
            let j = choose|j: int| 0 <= j < t.len() && (#[trigger] t[j]).0 == k;
            assert(tp[j].0 == k);
        }
        if asg_has(tp, k) {
            let j = choose|j: int| 0 <= j < tp.len() && (#[trigger] tp[j]).0 == k;
            assert(t[j].0 == k);
        }
    }
    assert forall|k: int| asg_has(t, k) implies (if is_pure(g, k) {
        asg_at(tp, k) == Some(occurs_with(g, k, true))
    } else {
        asg_at(tp, k) == asg_at(t, k)
    }) by {
        let j = choose|j: int| 0 <= j < t.len() && (#[trigger] t[j]).0 == k;
        lemma_at_entry(t, j);
        lemma_at_entry(tp, j);
    }
    assert forall|k: int| asg_has(tp, k) implies (#[trigger] asg_at(tp, k)) is Some by {
        assert(asg_has(t, k));
        assert(asg_at(t, k) is Some);
    }
    assert forall|m: int| 0 <= m < g.len() implies clause_sat(#[trigger] g[m], tp) by {
        let c = g[m];
        assert(clause_sat(c, t));
        let j = choose|j: int| 0 <= j < c.len() && lit_sat(#[trigger] c[j], t);
        let l = c[j];
        assert(lit_wf(l));
        let k = lit_var(l);
        assert(occurs_with(g, k, (l > 0)));
        assert(asg_has(t, k)) by {
            if l > 0 {
            } else {
            }
        }
        if is_pure(g, k) {
            assert(asg_at(tp, k) == Some(occurs_with(g, k, true)));
            if l > 0 {
                assert(occurs_with(g, k, true));
                assert(lit_sat(l, tp));
            } else {
                assert(occurs_with(g, k, false));
                if occurs_with(g, k, true) {
                    assert(!is_pure(g, k));
                }
                assert(asg_at(tp, k) == Some(false));
                assert(lit_sat(l, tp));
            }
        } else {
            assert(asg_at(tp, k) == asg_at(t, k));
            assert(lit_sat(l, tp));
        }
    }
}

/// The facts the driver knows of its tables after preprocessing: `a0` is
/// the freshly collected all-Unknown table, `af` the same table after the
/// pure-literal pass.
spec fn preprocessed(
    g: Seq<Seq<i32>>,
    a0: Seq<(i32, Option<bool>)>,
    af: Seq<(i32, Option<bool>)>,
) -> bool {
    &&& forall|k: int| #![trigger asg_has(a0, k)] asg_has(a0, k) <==> var_in_formula(g, k)
    &&& forall|k: int| asg_has(a0, k) ==> (#[trigger] asg_at(a0, k)) is None
    &&& forall|k: int| #![trigger asg_has(af, k)] asg_has(af, k) <==> asg_has(a0, k) || is_pure(
        g,
        k,
    )
    &&& forall|k: int| is_pure(g, k) ==> (#[trigger] asg_at(af, k)) == Some(
        occurs_with(g, k, true),
    )
    &&& forall|k: int| !is_pure(g, k) && asg_has(a0, k) ==> (#[trigger] asg_at(af, k)) == asg_at(
        a0,
        k,
    )
}

/// When the pure-literal pass leaves no Unknown behind, every variable was
/// pure, every nonempty clause holds a satisfied pure literal, and
/// simplification drops the whole formula.
proof fn lemma_all_pure_simplifies_away(
    g: Seq<Seq<i32>>,
    a0: Seq<(i32, Option<bool>)>,
    af: Seq<(i32, Option<bool>)>,
)
    requires
        formula_wf(g),
        preprocessed(g, a0, af),
        count_unknowns(af) == 0,
        forall|m: int| 0 <= m < g.len() ==> (#[trigger] g[m]).len() > 0,
    ensures
        spec_simplify(g, af).len() == 0,
{
    let sfv = spec_simplify(g, af);
    lemma_no_unknowns_all_committed(af);
    lemma_simplify_members(g, af);
    if sfv.len() > 0 {
        let c = sfv[0];
        let j = choose|j: int| 0 <= j < g.len() && g[j] == c;
        assert(!clause_sat(c, af));
        assert(c.len() > 0);
        let l = c[0];
        assert(lit_wf(l));
        let k = lit_var(l);
        assert(var_in_formula(g, k));
        assert(asg_has(af, k));
        let w = choose|w: int| 0 <= w < af.len() && (#[trigger] af[w]).0 == k;
        lemma_at_entry(af, w);
        assert(asg_at(af, k) is Some);
        if !is_pure(g, k) {
            assert(asg_has(a0, k));
            assert(asg_at(af, k) == asg_at(a0, k));
            assert(asg_at(a0, k) is None);
        }
        assert(is_pure(g, k));
        assert(asg_at(af, k) == Some(occurs_with(g, k, true)));
        assert(occurs_with(g, k, (l > 0)));
        if l > 0 {
            assert(asg_at(af, k) == Some(true));
        } else {
            if occurs_with(g, k, true) {
                assert(!is_pure(g, k));
            }
            assert(asg_at(af, k) == Some(false));
        }
        assert(lit_sat(l, af));
        assert(clause_sat(c, af));
    }
}

/// A satisfying total table over the formula's variables, once re-pointed
/// at the pure polarities, is a table the root node still covers.
proof fn lemma_root_covers_purified(
    g: Seq<Seq<i32>>,
    a0: Seq<(i32, Option<bool>)>,
    af: Seq<(i32, Option<bool>)>,
    root0: Node,
    t: Seq<(i32, Option<bool>)>,
)
    requires
        formula_wf(g),
        preprocessed(g, a0, af),
        root0.variable == 0,
        root0.assignment@ == af,
        formula_view(root0.formula@) == spec_simplify(g, af),
        table_for(g, t),
        sat_formula(g, t),
    ensures
        covers(root0, purify(g, t)),
{
    lemma_purify(g, t);
    lemma_simplify_members(g, af);
    let tp = purify(g, t);
    let sfv = spec_simplify(g, af);
    assert forall|k: int| asg_has(af, k) <==> asg_has(tp, k) by {
        assert(asg_has(af, k) <==> var_in_formula(g, k));
        assert(asg_has(t, k) <==> var_in_formula(g, k));
        assert(asg_has(t, k) <==> asg_has(tp, k));
    }
    assert forall|k: int| asg_has(af, k) && (#[trigger] asg_at(af, k)) is Some implies asg_has(
        tp,
        k,
    ) && asg_at(tp, k) == asg_at(af, k) by {
        if !is_pure(g, k) {
            assert(asg_has(a0, k));
            assert(asg_at(af, k) == asg_at(a0, k));
            assert(asg_at(a0, k) is None);
        }
        assert(is_pure(g, k));
        assert(asg_at(af, k) == Some(occurs_with(g, k, true)));
        assert(var_in_formula(g, k));
        assert(asg_has(t, k));
        assert(asg_at(tp, k) == Some(occurs_with(g, k, true)));
    }
    assert forall|i: int| 0 <= i < sfv.len() implies clause_sat(#[trigger] sfv[i], tp) by {
        let j = choose|j: int| 0 <= j < g.len() && g[j] == sfv[i];
        assert(clause_sat(g[j], tp));
    }
}

/// Decides satisfiability of a CNF formula.
///
/// `Some(solution)` means SATISFIABLE: the solution maps exactly the
/// variables of the formula, every one of them to a definite value, and
/// every clause of the original formula has at least one literal true under
/// it. `None` means UNSATISFIABLE, and means it completely: no total table
/// over the formula's variables satisfies every clause, so the verdict
/// always matches brute-force truth-table enumeration.
#[verifier::rlimit(100)]
pub fn solve(formula: &Vec<Vec<i32>>) -> (r: Option<Assignment>)
    requires
        formula_wf(formula_view(formula@)),
    ensures
        r matches Some(sol) ==> {
            &&& asg_inv(sol@)
            &&& forall|k: int| asg_has(sol@, k) <==> var_in_formula(formula_view(formula@), k)
            &&& forall|k: int| asg_has(sol@, k) ==> (#[trigger] asg_at(sol@, k)) is Some
            &&& forall|i: int|
                0 <= i < formula@.len() ==> clause_sat((#[trigger] formula@[i])@, sol@)
        },
        r is None ==> forall|t: Seq<(i32, Option<bool>)>|
            #[trigger] table_for(formula_view(formula@), t) ==> !sat_formula(
                formula_view(formula@),
                t,
            ),
{
    let ghost fv = formula_view(formula@);
    // A clause with no literal can never be satisfied: the formula is
    // trivially unsatisfiable, and the search below may assume every clause
    // is nonempty.
    let mut i: usize = 0;
    while i < formula.len()
        invariant
            fv == formula_view(formula@),
            i <= formula@.len(),
            forall|m: int| 0 <= m < i ==> (#[trigger] fv[m]).len() > 0,
        decreases formula@.len() - i,
    {
        if formula[i].len() == 0 {
            proof {
                assert(fv[i as int] == formula@[i as int]@);
                assert(fv[i as int].len() == 0);
                assert forall|t: Seq<(i32, Option<bool>)>| !sat_formula(fv, t) by {
                    assert(!clause_sat(fv[i as int], t));
                }
            }
            return None;
        }
        proof {
            assert(fv[i as int] == formula@[i as int]@);
        }
        i = i + 1;
    }
    let mut assignment = initial_assignment(formula);
    let ghost a0 = assignment@;
    let simplified = pure_literal_elimination(formula, &mut assignment);
    let ghost af = assignment@;
    let ghost sfv = formula_view(simplified@);
    proof {
        assert(sfv == spec_simplify(fv, af));
        lemma_simplify_members(fv, af);
        // the root is well-formed and tracks exactly the formula's variables
        assert forall|p: int| 0 <= p < sfv.len() implies clause_wf(#[trigger] sfv[p]) by {
            let q = choose|q: int| 0 <= q < fv.len() && fv[q] == sfv[p];
        }
        assert forall|p: int, q: int|
            0 <= p < sfv.len() && 0 <= q < sfv[p].len() implies asg_has(
            af,
            lit_var(#[trigger] sfv[p][q]),
        ) by {
            let w = choose|w: int| 0 <= w < fv.len() && fv[w] == sfv[p];
            assert(lit_var(fv[w][q]) == lit_var(sfv[p][q]));
            assert(var_in_formula(fv, lit_var(fv[w][q])));
        }
        assert(preprocessed(fv, a0, af));
        if count_unknowns(af) == 0 {
            // every variable was pure, so simplification dropped every clause
            lemma_all_pure_simplifies_away(fv, a0, af);
            assert(sfv.len() == 0);
        }
    }
    let root = Node::new(simplified, None, 0, assignment);
    proof {
        assert(formula_view(root.formula@) == sfv);
        assert(node_wf(root));
        lemma_simplify_complete(fv, af);
        assert(node_covers(root, fv));
        assert(keys_match(root, fv));
    }
    let ghost root0 = root;
    let mut tasklist: Vec<Node> = Vec::new();
    add_task(root, &mut tasklist);
    proof {
        assert(tasklist@[0] == root0);
    }
    while tasklist.len() > 0
        invariant
            formula_wf(fv),
            fv == formula_view(formula@),
            forall|t: int| 0 <= t < tasklist@.len() ==> node_wf(#[trigger] tasklist@[t]),
            forall|t: int| 0 <= t < tasklist@.len() ==> node_covers(#[trigger] tasklist@[t], fv),
            forall|t: int| 0 <= t < tasklist@.len() ==> keys_match(#[trigger] tasklist@[t], fv),
            forall|t: Seq<(i32, Option<bool>)>|
                #[trigger] covers(root0, t) ==> exists|m: int|
                    0 <= m < tasklist@.len() && covers(tasklist@[m], t),
        decreases stack_weight(tasklist@),
    {
        let ghost tl0 = tasklist@;
        let node = get_task(&mut tasklist).unwrap();
        proof {
            assert(node == tl0.last());
            assert(stack_weight(tl0) == stack_weight(tasklist@) + two_to(node_measure(node)));
        }
        let ghost tl1 = tasklist@;
        let res = build_search_tree(node, &mut tasklist);
        if let Some(sol) = res {
            proof {
                assert(solution_for(node, sol@));
                assert forall|i: int| 0 <= i < formula@.len() implies clause_sat(
                    (#[trigger] formula@[i])@,
                    sol@,
                ) by {
                    assert(fv[i] == formula@[i]@);
                    if formula_view(node.formula@).contains(fv[i]) {
                        let j = choose|j: int|
                            0 <= j < formula_view(node.formula@).len() && formula_view(
                                node.formula@,
                            )[j] == fv[i];
                        assert(formula_view(node.formula@)[j] == node.formula@[j]@);
                        assert(clause_sat(node.formula@[j]@, sol@));
                    } else {
                        assert(clause_sat(fv[i], node.assignment@));
                        lemma_clause_sat_monotone(fv[i], node.assignment@, sol@);
                    }
                }
                assert forall|k: int| asg_has(sol@, k) <==> var_in_formula(fv, k) by {
                    assert(asg_has(sol@, k) <==> asg_has(node.assignment@, k));
                }
            }
            return Some(sol);
        }
        proof {
            assert forall|t: int| 0 <= t < tasklist@.len() implies node_wf(
                #[trigger] tasklist@[t],
            ) && node_covers(tasklist@[t], fv) && keys_match(tasklist@[t], fv) by {
                if t < tl1.len() {
                    assert(tasklist@[t] == tl1[t]);
                    assert(tl1[t] == tl0[t]);
                } else {
                    let p = tasklist@[t];
                    assert(derived_from(node, p));
                    assert forall|i: int| 0 <= i < fv.len() implies formula_view(
                        p.formula@,
                    ).contains(#[trigger] fv[i]) || clause_sat(fv[i], p.assignment@) by {
                        if formula_view(node.formula@).contains(fv[i]) {
                            let j = choose|j: int|
                                0 <= j < formula_view(node.formula@).len() && formula_view(
                                    node.formula@,
                                )[j] == fv[i];
                            assert(formula_view(node.formula@)[j] == node.formula@[j]@);
                            assert(formula_view(p.formula@).contains(node.formula@[j]@)
                                || clause_sat(node.formula@[j]@, p.assignment@));
                        } else {
                            assert(clause_sat(fv[i], node.assignment@));
                            lemma_clause_sat_monotone(fv[i], node.assignment@, p.assignment@);
                        }
                    }
                    assert forall|k: int| asg_has(p.assignment@, k) <==> var_in_formula(
                        fv,
                        k,
                    ) by {
                        assert(asg_has(p.assignment@, k) <==> asg_has(node.assignment@, k));
                    }
                    assert(node_covers(p, fv));
                    assert(keys_match(p, fv));
                }
            }
            assert forall|t: Seq<(i32, Option<bool>)>| covers(root0, t) implies exists|m: int|
                0 <= m < tasklist@.len() && covers(tasklist@[m], t) by {
                let m0 = choose|m0: int| 0 <= m0 < tl0.len() && covers(tl0[m0], t);
                if m0 < tl0.len() - 1 {
                    assert(tasklist@[m0] == tl1[m0]);
                    assert(tl1[m0] == tl0[m0]);
                } else {
                    assert(tl0[m0] == node);
                    assert(covers(node, t));
                    let m1 = choose|m1: int|
                        tl1.len() <= m1 < tasklist@.len() && covers(tasklist@[m1], t);
                    assert(0 <= m1 < tasklist@.len() && covers(tasklist@[m1], t));
                }
            }
            assert(stack_weight(tasklist@) < stack_weight(tl0));
        }
    }
    proof {
        // the stack ran dry with no solution: no total table over the
        // formula's variables satisfies it. Any such table could be
        // re-pointed at the pure polarities without losing satisfaction,
        // and would then be covered by the root — but nothing covers it.
        assert forall|t: Seq<(i32, Option<bool>)>| table_for(fv, t) implies !sat_formula(
            fv,
            t,
        ) by {
            if sat_formula(fv, t) {
                lemma_root_covers_purified(fv, a0, af, root0, t);
                let tp = purify(fv, t);
                assert(exists|m: int| 0 <= m < tasklist@.len() && covers(tasklist@[m], tp));
                assert(tasklist@.len() == 0);
                assert(false);
            }
        }
    }
    None
}

} // verus!
