//! The formula model: literals, clauses, simplification under a partial
//! assignment, assignment initialization, and the one-shot pure-literal pass.
//!
//! A literal is a nonzero `i32`; its magnitude is the variable, its sign the
//! polarity. A clause is a vector of literals (a disjunction), a formula a
//! vector of clauses (a conjunction).

use vstd::prelude::*;

use crate::assignment::{asg_at, asg_has, asg_inv, extends_committed, Assignment};

verus! {

/// The sequence of clause views of a formula.
pub open spec fn formula_view(f: Seq<Vec<i32>>) -> Seq<Seq<i32>> {
    Seq::new(f.len(), |i: int| f[i]@)
}

/// A usable literal: nonzero, and its negation representable.
pub open spec fn lit_wf(l: i32) -> bool {
    l != 0 && l != i32::MIN
}

pub open spec fn clause_wf(c: Seq<i32>) -> bool {
    forall|j: int| 0 <= j < c.len() ==> lit_wf(#[trigger] c[j])
}

pub open spec fn formula_wf(f: Seq<Seq<i32>>) -> bool {
    forall|i: int| 0 <= i < f.len() ==> clause_wf(#[trigger] f[i])
}

/// The variable of a literal: its magnitude.
pub open spec fn lit_var(l: i32) -> int {
    if l >= 0 {
        l as int
    } else {
        -(l as int)
    }
}

/// A literal already made true by the committed entries of `a`: a positive
/// literal whose variable is True, or a negative one whose variable is False.
pub open spec fn lit_sat(l: i32, a: Seq<(i32, Option<bool>)>) -> bool {
    if l > 0 {
        asg_has(a, l as int) && asg_at(a, l as int) == Some(true)
    } else {
        asg_has(a, lit_var(l)) && asg_at(a, lit_var(l)) == Some(false)
    }
}

/// A clause satisfied under the committed entries of `a`.
pub open spec fn clause_sat(c: Seq<i32>, a: Seq<(i32, Option<bool>)>) -> bool {
    exists|j: int| 0 <= j < c.len() && lit_sat(#[trigger] c[j], a)
}

/// Simplification: drop each clause some literal of which is already true
/// under `a`; keep every other clause unchanged, falsified literals included.
pub open spec fn spec_simplify(f: Seq<Seq<i32>>, a: Seq<(i32, Option<bool>)>) -> Seq<Seq<i32>>
    decreases f.len(),
{
    if f.len() == 0 {
        Seq::empty()
    } else {
        let rest = spec_simplify(f.drop_last(), a);
        if clause_sat(f.last(), a) {
            rest
        } else {
            rest.push(f.last())
        }
    }
}

/// The variable `k` occurs somewhere in the formula with polarity `pos`.
pub open spec fn occurs_with(f: Seq<Seq<i32>>, k: int, pos: bool) -> bool {
    exists|p: int, q: int|
        0 <= p < f.len() && 0 <= q < f[p].len() && lit_var(#[trigger] f[p][q]) == k && ((f[p][q]
            > 0) == pos)
}

/// The variable `k` occurs somewhere in the formula.
pub open spec fn var_in_formula(f: Seq<Seq<i32>>, k: int) -> bool {
    exists|p: int, q: int| 0 <= p < f.len() && 0 <= q < f[p].len() && lit_var(#[trigger] f[p][q])
        == k
}

/// A pure variable: it occurs, and only with a single polarity.
pub open spec fn is_pure(f: Seq<Seq<i32>>, k: int) -> bool {
    var_in_formula(f, k) && !(occurs_with(f, k, true) && occurs_with(f, k, false))
}

/// The variable `k` occurs among the literals strictly before position
/// `(i, j)` in the clause-by-clause, literal-by-literal scan of `f`.
pub open spec fn var_in_prefix(f: Seq<Seq<i32>>, i: int, j: int, k: int) -> bool {
    exists|p: int, q: int|
        0 <= p < f.len() && 0 <= q < f[p].len() && (p < i || (p == i && q < j)) && lit_var(
            #[trigger] f[p][q],
        ) == k
}

/// Every clause that simplification keeps is a clause of the input and is not
/// yet satisfied under `a`.
pub proof fn lemma_simplify_members(f: Seq<Seq<i32>>, a: Seq<(i32, Option<bool>)>)
    ensures
        forall|i: int|
            0 <= i < spec_simplify(f, a).len() ==> !clause_sat(
                #[trigger] spec_simplify(f, a)[i],
                a,
            ) && exists|j: int| 0 <= j < f.len() && f[j] == spec_simplify(f, a)[i],
    decreases f.len(),
{
    if f.len() == 0 {
    } else {
        let dl = f.drop_last();
        lemma_simplify_members(dl, a);
        let r = spec_simplify(f, a);
        assert forall|i: int| 0 <= i < r.len() implies !clause_sat(#[trigger] r[i], a) && exists|
            j: int,
        | 0 <= j < f.len() && f[j] == r[i] by {
            let rd = spec_simplify(dl, a);
            if i < rd.len() {
                assert(r[i] == rd[i]);
                let j = choose|j: int| 0 <= j < dl.len() && dl[j] == rd[i];
                assert(f[j] == r[i]);
            } else {
                assert(r[i] == f.last());
                assert(f[f.len() - 1] == r[i]);
            }
        }
    }
}

/// Every clause of the input is either satisfied under `a` or kept.
pub proof fn lemma_simplify_complete(f: Seq<Seq<i32>>, a: Seq<(i32, Option<bool>)>)
    ensures
        forall|j: int|
            0 <= j < f.len() ==> clause_sat(#[trigger] f[j], a) || spec_simplify(f, a).contains(
                f[j],
            ),
    decreases f.len(),
{
    if f.len() == 0 {
    } else {
        let dl = f.drop_last();
        lemma_simplify_complete(dl, a);
        let r = spec_simplify(f, a);
        let rd = spec_simplify(dl, a);
        assert forall|j: int| 0 <= j < f.len() implies clause_sat(#[trigger] f[j], a)
            || r.contains(f[j]) by {
            if j < dl.len() {
                assert(dl[j] == f[j]);
                if !clause_sat(f[j], a) {
                    let i = choose|i: int| 0 <= i < rd.len() && rd[i] == f[j];
                    assert(r[i] == f[j]);
                }
            } else {
                if !clause_sat(f[j], a) {
                    assert(r[r.len() - 1] == f[j]);
                }
            }
        }
    }
}

/// Simplifying a formula none of whose clauses is satisfied returns it
/// unchanged.
proof fn lemma_simplify_of_unsat(f: Seq<Seq<i32>>, a: Seq<(i32, Option<bool>)>)
    requires
        forall|i: int| 0 <= i < f.len() ==> !clause_sat(#[trigger] f[i], a),
    ensures
        spec_simplify(f, a) == f,
    decreases f.len(),
{
    if f.len() == 0 {
        assert(spec_simplify(f, a) =~= f);
    } else {
        let dl = f.drop_last();
        assert(forall|i: int| 0 <= i < dl.len() ==> dl[i] == f[i]);
        lemma_simplify_of_unsat(dl, a);
        assert(!clause_sat(f.last(), a));
        assert(spec_simplify(f, a) =~= f);
    }
}

/// Idempotence: simplifying twice under the same assignment is the same as
/// simplifying once.
pub proof fn lemma_simplify_idempotent(f: Seq<Seq<i32>>, a: Seq<(i32, Option<bool>)>)
    ensures
        spec_simplify(spec_simplify(f, a), a) == spec_simplify(f, a),
{
    lemma_simplify_members(f, a);
    lemma_simplify_of_unsat(spec_simplify(f, a), a);
}

/// A clause satisfied under the committed entries of `a` stays satisfied
/// under any assignment that extends those commitments.
pub proof fn lemma_clause_sat_monotone(
    c: Seq<i32>,
    a: Seq<(i32, Option<bool>)>,
    b: Seq<(i32, Option<bool>)>,
)
    requires
        extends_committed(a, b),
        clause_sat(c, a),
    ensures
        clause_sat(c, b),
{
    let j = choose|j: int| 0 <= j < c.len() && lit_sat(#[trigger] c[j], a);
    let l = c[j];
    if l > 0 {
        assert(asg_at(a, l as int) is Some);
    } else {
        assert(asg_at(a, lit_var(l)) is Some);
    }
    assert(lit_sat(l, b));
}

/// The variable of a well-formed literal, always positive.
pub fn var_of(l: i32) -> (r: i32)
    requires
        lit_wf(l),
    ensures
        r as int == lit_var(l),
        r > 0,
{
    if l < 0 {
        -l
    } else {
        l
    }
}

/// An independent copy of one clause.
pub fn copy_clause(c: &Vec<i32>) -> (r: Vec<i32>)
    ensures
        r@ == c@,
{
    let mut r: Vec<i32> = Vec::new();
    let mut i: usize = 0;
    while i < c.len()
        invariant
            i <= c@.len(),
            r@ == c@.take(i as int),
        decreases c@.len() - i,
    {
        r.push(c[i]);
        proof {
            assert(r@ =~= c@.take(i as int + 1));
        }
        i = i + 1;
    }
    proof {
        assert(c@.take(c@.len() as int) =~= c@);
    }
    r
}

/// An independent copy of a whole formula.
pub fn copy_formula(f: &Vec<Vec<i32>>) -> (r: Vec<Vec<i32>>)
    ensures
        formula_view(r@) == formula_view(f@),
{
    let mut r: Vec<Vec<i32>> = Vec::new();
    let mut i: usize = 0;
    while i < f.len()
        invariant
            i <= f@.len(),
            r@.len() == i,
            forall|m: int| 0 <= m < i ==> (#[trigger] r@[m])@ == f@[m]@,
        decreases f@.len() - i,
    {
        let c = copy_clause(&f[i]);
        r.push(c);
        i = i + 1;
    }
    proof {
        assert(formula_view(r@) =~= formula_view(f@));
    }
    r
}

/// Whether some literal of the clause is already true under the committed
/// entries of the assignment.
fn clause_satisfied(c: &Vec<i32>, assignment: &Assignment) -> (r: bool)
    requires
        clause_wf(c@),
        asg_inv(assignment@),
    ensures
        r == clause_sat(c@, assignment@),
{
    let mut j: usize = 0;
    while j < c.len()
        invariant
            clause_wf(c@),
            asg_inv(assignment@),
            j <= c@.len(),
            forall|m: int| 0 <= m < j ==> !lit_sat(#[trigger] c@[m], assignment@),
        decreases c@.len() - j,
    {
        let l = c[j];
        if l > 0 {
            if let Some(v) = assignment.get(l) {
                if v == Some(true) {
                    return true;
                }
            }
        } else {
            if let Some(v) = assignment.get(var_of(l)) {
                if v == Some(false) {
                    return true;
                }
            }
        }
        j = j + 1;
    }
    false
}

/// Drops every clause already satisfied under the assignment's committed
/// entries and keeps the rest unchanged; no clause is treated as falsified
/// here.
pub fn simplify_formula(formula: &Vec<Vec<i32>>, assignment: &Assignment) -> (r: Vec<Vec<i32>>)
    requires
        formula_wf(formula_view(formula@)),
        asg_inv(assignment@),
    ensures
        formula_view(r@) == spec_simplify(formula_view(formula@), assignment@),
{
    let ghost fv = formula_view(formula@);
    let mut r: Vec<Vec<i32>> = Vec::new();
    let mut i: usize = 0;
    while i < formula.len()
        invariant
            formula_wf(fv),
            asg_inv(assignment@),
            fv == formula_view(formula@),
            i <= formula@.len(),
            formula_view(r@) == spec_simplify(fv.take(i as int), assignment@),
        decreases formula@.len() - i,
    {
        proof {
            assert(fv.take(i as int + 1).drop_last() =~= fv.take(i as int));
            assert(fv.take(i as int + 1).last() == fv[i as int]);
            assert(clause_wf(fv[i as int]));
            assert(formula@[i as int]@ == fv[i as int]);
        }
        let sat = clause_satisfied(&formula[i], assignment);
        if !sat {
            let c = copy_clause(&formula[i]);
            let ghost cv = c@;
            let ghost rp = r@;
            r.push(c);
            proof {
                assert(cv == fv[i as int]);
                assert(formula_view(r@) =~= spec_simplify(fv.take(i as int + 1), assignment@)) by {
                    let snew = spec_simplify(fv.take(i as int + 1), assignment@);
                    assert(snew == spec_simplify(fv.take(i as int), assignment@).push(
                        fv[i as int],
                    ));
                    assert forall|m: int| 0 <= m < r@.len() implies formula_view(r@)[m]
                        == snew[m] by {
                        if m < rp.len() {
                            assert(r@[m] == rp[m]);
                            assert(formula_view(rp)[m] == spec_simplify(
                                fv.take(i as int),
                                assignment@,
                            )[m]);
                        } else {
                            assert(r@[m]@ == cv);
                        }
                    }
                }
            }
        }
        i = i + 1;
    }
    proof {
        assert(fv.take(fv.len() as int) =~= fv);
    }
    r
}

/// Collects the distinct variables of the formula, each mapped to Unknown.
pub fn initial_assignment(formula: &Vec<Vec<i32>>) -> (r: Assignment)
    requires
        formula_wf(formula_view(formula@)),
    ensures
        asg_inv(r@),
        forall|k: int| asg_has(r@, k) <==> var_in_formula(formula_view(formula@), k),
        forall|k: int| asg_has(r@, k) ==> asg_at(r@, k) is None,
{
    let ghost fv = formula_view(formula@);
    let mut r = Assignment::new();
    let mut i: usize = 0;
    while i < formula.len()
        invariant
            formula_wf(fv),
            fv == formula_view(formula@),
            i <= formula@.len(),
            asg_inv(r@),
            forall|k: int| asg_has(r@, k) <==> var_in_prefix(fv, i as int, 0, k),
            forall|k: int| asg_has(r@, k) ==> asg_at(r@, k) is None,
        decreases formula@.len() - i,
    {
        let clause = &formula[i];
        let mut j: usize = 0;
        while j < clause.len()
            invariant
                formula_wf(fv),
                fv == formula_view(formula@),
                i < formula@.len(),
                clause@ == fv[i as int],
                j <= clause@.len(),
                asg_inv(r@),
                forall|k: int| asg_has(r@, k) <==> var_in_prefix(fv, i as int, j as int, k),
                forall|k: int| asg_has(r@, k) ==> asg_at(r@, k) is None,
            decreases clause@.len() - j,
        {
            proof {
                assert(lit_wf(fv[i as int][j as int]));
            }
            let key = var_of(clause[j]);
            let ghost before = r@;
            if r.get(key).is_none() {
                r.put(key, None);
            }
            proof {
                let kk = lit_var(fv[i as int][j as int]);
                assert(key as int == kk);
                assert forall|k: int| asg_has(r@, k) <==> var_in_prefix(
                    fv,
                    i as int,
                    j as int + 1,
                    k,
                ) by {
                    if asg_has(r@, k) {
                        if k == kk {
                            assert(var_in_prefix(fv, i as int, j as int + 1, k));
                        } else {
                            assert(asg_has(before, k));
                            let (p, q) = choose|p: int, q: int|
                                0 <= p < fv.len() && 0 <= q < fv[p].len() && (p < i as int || (p
                                    == i as int && q < j as int)) && lit_var(#[trigger] fv[p][q])
                                    == k;
                            assert(var_in_prefix(fv, i as int, j as int + 1, k));
                        }
                    }
                    if var_in_prefix(fv, i as int, j as int + 1, k) {
                        let (p, q) = choose|p: int, q: int|
                            0 <= p < fv.len() && 0 <= q < fv[p].len() && (p < i as int || (p
                                == i as int && q < j as int + 1)) && lit_var(#[trigger] fv[p][q])
                                == k;
                        if p == i as int && q == j as int {
                            assert(asg_has(r@, k));
                        } else {
                            assert(var_in_prefix(fv, i as int, j as int, k));
                            assert(asg_has(before, k));
                        }
                    }
                }
            }
            j = j + 1;
        }
        proof {
            assert forall|k: int|
                var_in_prefix(fv, i as int, fv[i as int].len() as int, k) <==> var_in_prefix(
                    fv,
                    i as int + 1,
                    0,
                    k,
                ) by {
                if var_in_prefix(fv, i as int, fv[i as int].len() as int, k) {
                    let (p, q) = choose|p: int, q: int|
                        0 <= p < fv.len() && 0 <= q < fv[p].len() && (p < i as int || (p == i as int
                            && q < fv[i as int].len())) && lit_var(#[trigger] fv[p][q]) == k;
                    assert(var_in_prefix(fv, i as int + 1, 0, k));
                }
                if var_in_prefix(fv, i as int + 1, 0, k) {
                    let (p, q) = choose|p: int, q: int|
                        0 <= p < fv.len() && 0 <= q < fv[p].len() && (p < i as int + 1) && lit_var(
                            #[trigger] fv[p][q],
                        ) == k;
                    assert(var_in_prefix(fv, i as int, fv[i as int].len() as int, k));
                }
            }
        }
        i = i + 1;
    }
    proof {
        assert forall|k: int|
            var_in_prefix(fv, formula@.len() as int, 0, k) <==> var_in_formula(fv, k) by {}
    }
    r
}

/// Whether variable `k` occurs with polarity `pos` anywhere in the formula.
fn occurs(formula: &Vec<Vec<i32>>, k: i32, pos: bool) -> (r: bool)
    requires
        formula_wf(formula_view(formula@)),
    ensures
        r == occurs_with(formula_view(formula@), k as int, pos),
{
    let ghost fv = formula_view(formula@);
    let mut i: usize = 0;
    while i < formula.len()
        invariant
            formula_wf(fv),
            fv == formula_view(formula@),
            i <= formula@.len(),
            forall|p: int, q: int|
                0 <= p < i && 0 <= q < fv[p].len() ==> !(lit_var(#[trigger] fv[p][q]) == k as int
                    && ((fv[p][q] > 0) == pos)),
        decreases formula@.len() - i,
    {
        let clause = &formula[i];
        let mut j: usize = 0;
        while j < clause.len()
            invariant
                formula_wf(fv),
                fv == formula_view(formula@),
                i < formula@.len(),
                clause@ == fv[i as int],
                j <= clause@.len(),
                forall|p: int, q: int|
                    0 <= p < i && 0 <= q < fv[p].len() ==> !(lit_var(#[trigger] fv[p][q])
                        == k as int && ((fv[p][q] > 0) == pos)),
                forall|q: int|
                    0 <= q < j ==> !(lit_var(#[trigger] fv[i as int][q]) == k as int && ((fv[
                        i as int][q] > 0) == pos)),
            decreases clause@.len() - j,
        {
            proof {
                assert(lit_wf(fv[i as int][j as int]));
            }
            let l = clause[j];
            if var_of(l) == k && ((l > 0) == pos) {
                return true;
            }
            j = j + 1;
        }
        i = i + 1;
    }
    false
}

/// The one-shot pure-literal pass: every variable occurring with a single
/// polarity is committed to the value that satisfies all its occurrences
/// (True for positive, False for negative), and the formula is then
/// simplified under the updated assignment.
pub fn pure_literal_elimination(formula: &Vec<Vec<i32>>, assignment: &mut Assignment) -> (r: Vec<
    Vec<i32>,
>)
    requires
        formula_wf(formula_view(formula@)),
        asg_inv(old(assignment)@),
    ensures
        asg_inv(final(assignment)@),
        forall|k: int|
            asg_has(final(assignment)@, k) <==> asg_has(old(assignment)@, k) || is_pure(
                formula_view(formula@),
                k,
            ),
        forall|k: int|
            is_pure(formula_view(formula@), k) ==> asg_at(final(assignment)@, k) == Some(
                occurs_with(formula_view(formula@), k, true),
            ),
        forall|k: int|
            !is_pure(formula_view(formula@), k) && asg_has(old(assignment)@, k) ==> asg_at(
                final(assignment)@,
                k,
            ) == asg_at(old(assignment)@, k),
        formula_view(r@) == spec_simplify(formula_view(formula@), final(assignment)@),
{
    let ghost fv = formula_view(formula@);
    let ghost a0 = assignment@;
    let mut i: usize = 0;
    while i < formula.len()
        invariant
            formula_wf(fv),
            fv == formula_view(formula@),
            i <= formula@.len(),
            asg_inv(assignment@),
            forall|k: int|
                asg_has(assignment@, k) <==> asg_has(a0, k) || (is_pure(fv, k) && var_in_prefix(
                    fv,
                    i as int,
                    0,
                    k,
                )),
            forall|k: int|
                is_pure(fv, k) && var_in_prefix(fv, i as int, 0, k) ==> asg_at(assignment@, k)
                    == Some(occurs_with(fv, k, true)),
            forall|k: int|
                !(is_pure(fv, k) && var_in_prefix(fv, i as int, 0, k)) && asg_has(a0, k) ==> asg_at(
                    assignment@,
                    k,
                ) == asg_at(a0, k),
        decreases formula@.len() - i,
    {
        let clause = &formula[i];
        let mut j: usize = 0;
        while j < clause.len()
            invariant
                formula_wf(fv),
                fv == formula_view(formula@),
                i < formula@.len(),
                clause@ == fv[i as int],
                j <= clause@.len(),
                asg_inv(assignment@),
                forall|k: int|
                    asg_has(assignment@, k) <==> asg_has(a0, k) || (is_pure(fv, k)
                        && var_in_prefix(fv, i as int, j as int, k)),
                forall|k: int|
                    is_pure(fv, k) && var_in_prefix(fv, i as int, j as int, k) ==> asg_at(
                        assignment@,
                        k,
                    ) == Some(occurs_with(fv, k, true)),
                forall|k: int|
                    !(is_pure(fv, k) && var_in_prefix(fv, i as int, j as int, k)) && asg_has(a0, k)
                        ==> asg_at(assignment@, k) == asg_at(a0, k),
            decreases clause@.len() - j,
        {
            proof {
                assert(lit_wf(fv[i as int][j as int]));
            }
            let l = clause[j];
            let key = var_of(l);
            let ghost kk = key as int;
            let ghost before = assignment@;
            let pos = occurs(formula, key, true);
            let neg = occurs(formula, key, false);
            if !(pos && neg) {
                proof {
                    assert(var_in_formula(fv, kk)) by {
                        assert(lit_var(fv[i as int][j as int]) == kk);
                    }
                    assert(is_pure(fv, kk));
                }
                assignment.put(key, Some(pos));
            }
            proof {
                assert(lit_var(fv[i as int][j as int]) == kk);
                assert forall|k: int|
                    var_in_prefix(fv, i as int, j as int + 1, k) <==> (var_in_prefix(
                        fv,
                        i as int,
                        j as int,
                        k,
                    ) || k == kk) by {
                    if var_in_prefix(fv, i as int, j as int + 1, k) {
                        let (p, q) = choose|p: int, q: int|
                            0 <= p < fv.len() && 0 <= q < fv[p].len() && (p < i as int || (p
                                == i as int && q < j as int + 1)) && lit_var(#[trigger] fv[p][q])
                                == k;
                        if p == i as int && q == j as int {
                        } else {
                            assert(var_in_prefix(fv, i as int, j as int, k));
                        }
                    }
                    if var_in_prefix(fv, i as int, j as int, k) {
                        let (p, q) = choose|p: int, q: int|
                            0 <= p < fv.len() && 0 <= q < fv[p].len() && (p < i as int || (p
                                == i as int && q < j as int)) && lit_var(#[trigger] fv[p][q]) == k;
                        assert(var_in_prefix(fv, i as int, j as int + 1, k));
                    }
                    if k == kk {
                        assert(var_in_prefix(fv, i as int, j as int + 1, k));
                    }
                }
                if is_pure(fv, kk) {
                    assert((occurs_with(fv, kk, true) && occurs_with(fv, kk, false)) == false);
                    assert(asg_at(assignment@, kk) == Some(occurs_with(fv, kk, true)));
                }
            }
            j = j + 1;
        }
        proof {
            assert forall|k: int|
                var_in_prefix(fv, i as int, fv[i as int].len() as int, k) <==> var_in_prefix(
                    fv,
                    i as int + 1,
                    0,
                    k,
                ) by {
                if var_in_prefix(fv, i as int, fv[i as int].len() as int, k) {
                    let (p, q) = choose|p: int, q: int|
                        0 <= p < fv.len() && 0 <= q < fv[p].len() && (p < i as int || (p == i as int
                            && q < fv[i as int].len())) && lit_var(#[trigger] fv[p][q]) == k;
                    assert(var_in_prefix(fv, i as int + 1, 0, k));
                }
                if var_in_prefix(fv, i as int + 1, 0, k) {
                    let (p, q) = choose|p: int, q: int|
                        0 <= p < fv.len() && 0 <= q < fv[p].len() && (p < i as int + 1) && lit_var(
                            #[trigger] fv[p][q],
                        ) == k;
                    assert(var_in_prefix(fv, i as int, fv[i as int].len() as int, k));
                }
            }
        }
        i = i + 1;
    }
    proof {
        assert forall|k: int| var_in_prefix(fv, formula@.len() as int, 0, k) <==> var_in_formula(
            fv,
            k,
        ) by {}
        assert forall|k: int| is_pure(fv, k) implies var_in_prefix(
            fv,
            formula@.len() as int,
            0,
            k,
        ) by {}
    }
    simplify_formula(formula, assignment)
}

} // verus!
