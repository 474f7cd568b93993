//! The assignment table: a tri-state value for every variable of the formula.
//!
//! A variable id is a positive `i32`; its value is `None` while undecided and
//! `Some(b)` once committed. The table is a vector of `(variable, value)`
//! pairs kept strictly sorted by variable, so every variable occurs at most
//! once and enumeration is deterministic and ascending.

use vstd::prelude::*;

verus! {

/// The entries are strictly increasing by variable id.
pub open spec fn asg_sorted(s: Seq<(i32, Option<bool>)>) -> bool {
    forall|i: int, j: int| 0 <= i < j < s.len() ==> s[i].0 < s[j].0
}

/// Well-formed table: sorted (hence duplicate-free) and every variable positive.
pub open spec fn asg_inv(s: Seq<(i32, Option<bool>)>) -> bool {
    &&& asg_sorted(s)
    &&& forall|i: int| 0 <= i < s.len() ==> (#[trigger] s[i]).0 > 0
}

/// The table has an entry for variable `k`.
pub open spec fn asg_has(s: Seq<(i32, Option<bool>)>, k: int) -> bool {
    exists|i: int| 0 <= i < s.len() && (#[trigger] s[i]).0 == k
}

/// The value recorded for variable `k` (meaningful only when `asg_has`).
pub open spec fn asg_at(s: Seq<(i32, Option<bool>)>, k: int) -> Option<bool> {
    s[choose|i: int| 0 <= i < s.len() && (#[trigger] s[i]).0 == k].1
}

/// The variables still undecided, in the order their entries appear.
pub open spec fn unknown_keys(s: Seq<(i32, Option<bool>)>) -> Seq<i32>
    decreases s.len(),
{
    if s.len() == 0 {
        Seq::empty()
    } else {
        let rest = unknown_keys(s.drop_last());
        if s.last().1 is None {
            rest.push(s.last().0)
        } else {
            rest
        }
    }
}

/// How many variables are still undecided.
pub open spec fn count_unknowns(s: Seq<(i32, Option<bool>)>) -> nat {
    unknown_keys(s).len()
}

/// `a` and `b` track exactly the same variables.
pub open spec fn same_keys(a: Seq<(i32, Option<bool>)>, b: Seq<(i32, Option<bool>)>) -> bool {
    forall|k: int| #![trigger asg_has(a, k)] #![trigger asg_has(b, k)] asg_has(a, k) <==> asg_has(
        b,
        k,
    )
}

/// Every value committed in `a` is committed identically in `b`:
/// `b` extends `a` by deciding more variables, never by changing a decision.
pub open spec fn extends_committed(
    a: Seq<(i32, Option<bool>)>,
    b: Seq<(i32, Option<bool>)>,
) -> bool {
    forall|k: int|
        asg_has(a, k) && (#[trigger] asg_at(a, k)) is Some ==> asg_has(b, k) && asg_at(b, k)
            == asg_at(a, k)
}

/// In a sorted table an entry's index is determined by its variable.
pub proof fn lemma_key_unique(s: Seq<(i32, Option<bool>)>, i: int, j: int)
    requires
        asg_sorted(s),
        0 <= i < s.len(),
        0 <= j < s.len(),
        s[i].0 == s[j].0,
    ensures
        i == j,
{
    if i < j {
        assert(s[i].0 < s[j].0);
    }
    if j < i {
        assert(s[j].0 < s[i].0);
    }
}

/// Reading through `asg_has`/`asg_at` agrees with the entry at any index.
pub proof fn lemma_at_entry(s: Seq<(i32, Option<bool>)>, i: int)
    requires
        asg_sorted(s),
        0 <= i < s.len(),
    ensures
        asg_has(s, s[i].0 as int),
        asg_at(s, s[i].0 as int) == s[i].1,
{
    let k = s[i].0 as int;
    assert(asg_has(s, k));
    let j = choose|j: int| 0 <= j < s.len() && (#[trigger] s[j]).0 == k;
    lemma_key_unique(s, i, j);
}

/// A variable is listed among the unknown keys exactly when the table holds
/// an undecided entry for it.
pub proof fn lemma_unknown_keys_membership(s: Seq<(i32, Option<bool>)>, x: i32)
    ensures
        unknown_keys(s).contains(x) <==> exists|i: int|
            0 <= i < s.len() && s[i] == (x, None::<bool>),
    decreases s.len(),
{
    if s.len() == 0 {
    } else {
        let dl = s.drop_last();
        lemma_unknown_keys_membership(dl, x);
        if unknown_keys(s).contains(x) {
            if s.last().1 is None && s.last().0 == x {
                assert(s[s.len() - 1] == (x, None::<bool>));
            } else {
                assert(unknown_keys(dl).contains(x));
                let i = choose|i: int| 0 <= i < dl.len() && dl[i] == (x, None::<bool>);
                assert(s[i] == (x, None::<bool>));
            }
        }
        if exists|i: int| 0 <= i < s.len() && s[i] == (x, None::<bool>) {
            let i = choose|i: int| 0 <= i < s.len() && s[i] == (x, None::<bool>);
            if i == s.len() - 1 {
                assert(unknown_keys(s).contains(x)) by {
                    assert(unknown_keys(s).last() == x);
                }
            } else {
                assert(dl[i] == (x, None::<bool>));
                assert(unknown_keys(dl).contains(x));
                let j = choose|j: int| 0 <= j < unknown_keys(dl).len() && unknown_keys(dl)[j] == x;
                assert(unknown_keys(s)[j] == x);
            }
        }
    }
}

/// With no unknowns left, every entry is committed.
pub proof fn lemma_no_unknowns_all_committed(s: Seq<(i32, Option<bool>)>)
    requires
        count_unknowns(s) == 0,
    ensures
        forall|i: int| 0 <= i < s.len() ==> (#[trigger] s[i]).1 is Some,
{
    assert forall|i: int| 0 <= i < s.len() implies (#[trigger] s[i]).1 is Some by {
        if s[i].1 is None {
            let x = s[i].0;
            lemma_unknown_keys_membership(s, x);
            assert(s[i] == (x, None::<bool>));
            assert(unknown_keys(s).contains(x));
        }
    }
}

/// Every unknown key is the variable of some entry of the table.
pub proof fn lemma_unknown_keys_are_keys(s: Seq<(i32, Option<bool>)>)
    ensures
        forall|j: int| 0 <= j < unknown_keys(s).len() ==> exists|i: int|
            0 <= i < s.len() && s[i] == ((#[trigger] unknown_keys(s)[j]), None::<bool>),
{
    assert forall|j: int| 0 <= j < unknown_keys(s).len() implies exists|i: int|
        0 <= i < s.len() && s[i] == ((#[trigger] unknown_keys(s)[j]), None::<bool>) by {
        assert(unknown_keys(s).contains(unknown_keys(s)[j]));
        lemma_unknown_keys_membership(s, unknown_keys(s)[j]);
    }
}

/// In a sorted table the unknown keys come out strictly ascending.
pub proof fn lemma_unknown_keys_sorted(s: Seq<(i32, Option<bool>)>)
    requires
        asg_sorted(s),
    ensures
        forall|i: int, j: int|
            0 <= i < j < unknown_keys(s).len() ==> unknown_keys(s)[i] < unknown_keys(s)[j],
    decreases s.len(),
{
    if s.len() == 0 {
    } else {
        let dl = s.drop_last();
        lemma_unknown_keys_sorted(dl);
        lemma_unknown_keys_are_keys(dl);
        if s.last().1 is None {
            assert forall|i: int, j: int|
                0 <= i < j < unknown_keys(s).len() implies unknown_keys(s)[i] < unknown_keys(
                s,
            )[j] by {
                if j == unknown_keys(s).len() - 1 {
                    let i0 = choose|i0: int|
                        0 <= i0 < dl.len() && dl[i0] == ((unknown_keys(dl)[i]), None::<bool>);
                    assert(s[i0].0 < s.last().0);
                } else {
                    assert(unknown_keys(dl)[i] < unknown_keys(dl)[j]);
                }
            }
        }
    }
}

/// Committing one undecided entry lowers the unknown count by exactly one.
/// This is the monotonicity of the search: each decision level turns exactly
/// one Unknown variable into a committed one.
pub proof fn lemma_count_update_commit(s: Seq<(i32, Option<bool>)>, i: int, b: bool)
    requires
        0 <= i < s.len(),
        s[i].1 is None,
    ensures
        count_unknowns(s.update(i, (s[i].0, Some(b)))) == count_unknowns(s) - 1,
    decreases s.len(),
{
    let t = s.update(i, (s[i].0, Some(b)));
    if i == s.len() - 1 {
        assert(t.drop_last() =~= s.drop_last());
    } else {
        lemma_count_update_commit(s.drop_last(), i, b);
        assert(t.drop_last() =~= s.drop_last().update(i, (s[i].0, Some(b))));
        assert(t.last() == s.last());
    }
}

/// The solver's table of variable values.
pub struct Assignment {
    entries: Vec<(i32, Option<bool>)>,
}

impl View for Assignment {
    type V = Seq<(i32, Option<bool>)>;

    closed spec fn view(&self) -> Seq<(i32, Option<bool>)> {
        self.entries@
    }
}

impl Assignment {
    /// An empty table.
    pub fn new() -> (r: Assignment)
        ensures
            r@ == Seq::<(i32, Option<bool>)>::empty(),
            asg_inv(r@),
    {
        let r = Assignment { entries: Vec::new() };
        proof {
            assert(r@ =~= Seq::<(i32, Option<bool>)>::empty());
        }
        r
    }

    /// How many variables the table tracks.
    pub fn len(&self) -> (r: usize)
        ensures
            r == self@.len(),
    {
        self.entries.len()
    }

    /// The entry at position `i`, in ascending variable order.
    pub fn entry(&self, i: usize) -> (r: (i32, Option<bool>))
        requires
            i < self@.len(),
        ensures
            r == self@[i as int],
    {
        self.entries[i]
    }

    /// An independent copy of the table.
    pub fn duplicate(&self) -> (r: Assignment)
        ensures
            r@ == self@,
    {
        let mut entries: Vec<(i32, Option<bool>)> = Vec::new();
        let mut i: usize = 0;
        while i < self.entries.len()
            invariant
                i <= self.entries.len(),
                entries@ == self.entries@.take(i as int),
            decreases self.entries.len() - i,
        {
            entries.push(self.entries[i]);
            proof {
                assert(entries@ =~= self.entries@.take(i as int + 1));
            }
            i = i + 1;
        }
        proof {
            assert(self.entries@.take(self.entries@.len() as int) =~= self.entries@);
        }
        Assignment { entries }
    }

    /// Looks a variable up: `None` when the table has no entry for it,
    /// `Some(value)` otherwise.
    pub fn get(&self, k: i32) -> (r: Option<Option<bool>>)
        requires
            asg_inv(self@),
        ensures
            r is Some <==> asg_has(self@, k as int),
            r matches Some(v) ==> v == asg_at(self@, k as int),
    {
        let n = self.entries.len();
        let mut i: usize = 0;
        while i < n
            invariant
                asg_inv(self@),
                n == self@.len(),
                i <= n,
                forall|m: int| 0 <= m < i ==> (#[trigger] self@[m]).0 != k,
            decreases n - i,
        {
            if self.entries[i].0 == k {
                proof {
                    lemma_at_entry(self@, i as int);
                }
                return Some(self.entries[i].1);
            }
            i = i + 1;
        }
        None
    }

    /// Records value `v` for variable `k`, adding the entry if the variable
    /// is new and overwriting it otherwise.
    pub fn put(&mut self, k: i32, v: Option<bool>)
        requires
            asg_inv(old(self)@),
            k > 0,
        ensures
            asg_inv(final(self)@),
            asg_has(final(self)@, k as int),
            asg_at(final(self)@, k as int) == v,
            forall|m: int| m != k ==> (asg_has(final(self)@, m) <==> asg_has(old(self)@, m)),
            forall|m: int|
                m != k && asg_has(old(self)@, m) ==> asg_at(final(self)@, m) == asg_at(
                    old(self)@,
                    m,
                ),
            asg_has(old(self)@, k as int) ==> final(self)@ == old(self)@.update(
                choose|i: int| 0 <= i < old(self)@.len() && (#[trigger] old(self)@[i]).0 == k,
                (k, v),
            ),
            !asg_has(old(self)@, k as int) ==> count_unknowns(final(self)@) == count_unknowns(
                old(self)@,
            ) + (if v is None { 1int } else { 0int }),
            asg_has(old(self)@, k as int) && asg_at(old(self)@, k as int) is None && v is Some
                ==> count_unknowns(final(self)@) == count_unknowns(old(self)@) - 1,
            final(self)@.len() == old(self)@.len() + (if asg_has(old(self)@, k as int) {
                0int
            } else {
                1int
            }),
    {
        let ghost s = self.entries@;
        let n = self.entries.len();
        let mut i: usize = 0;
        while i < n && self.entries[i].0 < k
            invariant
                asg_inv(s),
                self@ == s,
                n == s.len(),
                i <= n,
                forall|m: int| 0 <= m < i ==> (#[trigger] s[m]).0 < k,
            decreases n - i,
        {
            i = i + 1;
        }
        if i < n && self.entries[i].0 == k {
            // overwrite the existing entry
            let ghost iw = i as int;
            self.entries[i] = (k, v);
            proof {
                let t = self.entries@;
                assert(t =~= s.update(iw, (k, v)));
                lemma_key_unique(s, iw, choose|j: int| 0 <= j < s.len() && (#[trigger] s[j]).0 == k);
                assert(asg_sorted(t));
                lemma_at_entry(t, iw);
                assert forall|m: int| m != k implies (asg_has(t, m) <==> asg_has(s, m)) by {
                    if asg_has(t, m) {
                        let j = choose|j: int| 0 <= j < t.len() && (#[trigger] t[j]).0 == m;
                        assert(s[j].0 == m);
                    }
                    if asg_has(s, m) {
                        let j = choose|j: int| 0 <= j < s.len() && (#[trigger] s[j]).0 == m;
                        assert(t[j].0 == m);
                    }
                }
                assert forall|m: int| m != k && asg_has(s, m) implies asg_at(t, m) == asg_at(
                    s,
                    m,
                ) by {
                    let j = choose|j: int| 0 <= j < s.len() && (#[trigger] s[j]).0 == m;
                    assert(t[j].0 == m && t[j].1 == s[j].1);
                    lemma_at_entry(s, j);
                    lemma_at_entry(t, j);
                }
                if asg_at(s, k as int) is None && v is Some {
                    lemma_at_entry(s, iw);
                    lemma_count_update_commit(s, iw, v->0);
                }
            }
        } else {
            // insert a fresh entry at the first position whose key exceeds `k`
            let ghost iw = i as int;
            self.entries.insert(i, (k, v));
            proof {
                let t = self.entries@;
                assert(t == s.insert(iw, (k, v)));
                assert(forall|m: int| 0 <= m < iw ==> (#[trigger] s[m]).0 < k);
                assert(iw < s.len() ==> s[iw].0 > k);
                assert forall|p: int, q: int| 0 <= p < q < t.len() implies t[p].0 < t[q].0 by {
                    if p < iw && q == iw {
                    } else if p == iw && q > iw {
                        assert(t[q] == s[q - 1]);
                        assert(s[q - 1].0 >= s[iw].0 || q - 1 == iw);
                    } else if p < iw && q > iw {
                        assert(t[q] == s[q - 1]);
                    }
                }
                assert(asg_sorted(t));
                assert(forall|m: int| 0 <= m < t.len() ==> (#[trigger] t[m]).0 > 0);
                lemma_at_entry(t, iw);
                assert(!asg_has(s, k as int)) by {
                    if asg_has(s, k as int) {
                        let j = choose|j: int| 0 <= j < s.len() && (#[trigger] s[j]).0 == k;
                        if j < iw {
                        } else {
                            assert(s[j].0 > k || j == iw);
                        }
                    }
                }
                assert forall|m: int| m != k implies (asg_has(t, m) <==> asg_has(s, m)) by {
                    if asg_has(t, m) {
                        let j = choose|j: int| 0 <= j < t.len() && (#[trigger] t[j]).0 == m;
                        if j < iw {
                            assert(s[j].0 == m);
                        } else {
                            assert(s[j - 1].0 == m);
                        }
                    }
                    if asg_has(s, m) {
                        let j = choose|j: int| 0 <= j < s.len() && (#[trigger] s[j]).0 == m;
                        if j < iw {
                            assert(t[j].0 == m);
                        } else {
                            assert(t[j + 1].0 == m);
                        }
                    }
                }
                assert forall|m: int| m != k && asg_has(s, m) implies asg_at(t, m) == asg_at(
                    s,
                    m,
                ) by {
                    let j = choose|j: int| 0 <= j < s.len() && (#[trigger] s[j]).0 == m;
                    lemma_at_entry(s, j);
                    if j < iw {
                        assert(t[j] == s[j]);
                        lemma_at_entry(t, j);
                    } else {
                        assert(t[j + 1] == s[j]);
                        lemma_at_entry(t, j + 1);
                    }
                }
                lemma_count_insert(s, iw, (k, v));
            }
        }
    }
}

impl Assignment {
    /// Commits every still-undecided variable to True; committed entries are
    /// left untouched.
    pub fn default_unknowns(&mut self)
        requires
            asg_inv(old(self)@),
        ensures
            asg_inv(final(self)@),
            same_keys(old(self)@, final(self)@),
            extends_committed(old(self)@, final(self)@),
            forall|k: int|
                asg_has(final(self)@, k) ==> (#[trigger] asg_at(final(self)@, k)) is Some,
            forall|k: int|
                asg_has(old(self)@, k) && asg_at(old(self)@, k) is None ==> asg_at(final(self)@, k)
                    == Some(true),
    {
        let ghost s = self.entries@;
        let n = self.entries.len();
        let mut i: usize = 0;
        while i < n
            invariant
                asg_inv(s),
                n == s.len(),
                i <= n,
                self@.len() == s.len(),
                forall|m: int| 0 <= m < s.len() ==> (#[trigger] self@[m]).0 == s[m].0,
                forall|m: int|
                    0 <= m < i ==> (#[trigger] self@[m]).1 == (if s[m].1 is Some {
                        s[m].1
                    } else {
                        Some(true)
                    }),
                forall|m: int| i <= m < s.len() ==> (#[trigger] self@[m]).1 == s[m].1,
            decreases n - i,
        {
            let e = self.entries[i];
            if e.1.is_none() {
                self.entries[i] = (e.0, Some(true));
            }
            i = i + 1;
        }
        proof {
            let t = self@;
            assert(asg_sorted(t));
            assert forall|k: int| asg_has(s, k) <==> asg_has(t, k) by {
                if asg_has(s, k) {
                    let j = choose|j: int| 0 <= j < s.len() && (#[trigger] s[j]).0 == k;
                    assert(t[j].0 == k);
                }
                if asg_has(t, k) {
                    let j = choose|j: int| 0 <= j < t.len() && (#[trigger] t[j]).0 == k;
                    assert(s[j].0 == k);
                }
            }
            assert forall|k: int| asg_has(s, k) implies asg_at(t, k) == (if asg_at(s, k) is Some {
                asg_at(s, k)
            } else {
                Some(true)
            }) by {
                let j = choose|j: int| 0 <= j < s.len() && (#[trigger] s[j]).0 == k;
                lemma_at_entry(s, j);
                lemma_at_entry(t, j);
            }
        }
    }
}

/// Inserting an entry adds one unknown when its value is `None` and none
/// otherwise.
proof fn lemma_count_insert(s: Seq<(i32, Option<bool>)>, i: int, e: (i32, Option<bool>))
    requires
        0 <= i <= s.len(),
    ensures
        count_unknowns(s.insert(i, e)) == count_unknowns(s) + (if e.1 is None {
            1int
        } else {
            0int
        }),
    decreases s.len(),
{
    let t = s.insert(i, e);
    if i == s.len() {
        assert(t.drop_last() =~= s);
        assert(t.last() == e);
    } else {
        lemma_count_insert(s.drop_last(), i, e);
        assert(t.drop_last() =~= s.drop_last().insert(i, e));
        assert(t.last() == s.last());
    }
}

/// The variables still undecided, in ascending order: the head of this list
/// is the next decision variable.
pub fn get_assignment_keys(assignment: &Assignment) -> (r: Vec<i32>)
    requires
        asg_inv(assignment@),
    ensures
        r@ == unknown_keys(assignment@),
{
    let mut r: Vec<i32> = Vec::new();
    let n = assignment.len();
    let mut i: usize = 0;
    while i < n
        invariant
            asg_inv(assignment@),
            n == assignment@.len(),
            i <= n,
            r@ == unknown_keys(assignment@.take(i as int)),
        decreases n - i,
    {
        let e = assignment.entry(i);
        proof {
            let s = assignment@;
            assert(s.take(i as int + 1).drop_last() =~= s.take(i as int));
            assert(s.take(i as int + 1).last() == s[i as int]);
        }
        if e.1.is_none() {
            r.push(e.0);
        }
        i = i + 1;
    }
    proof {
        assert(assignment@.take(assignment@.len() as int) =~= assignment@);
    }
    r
}

/// The next decision variable — the head of `unknown_keys` — is the least
/// variable still undecided; the tie-break is deterministic and ascending.
pub proof fn lemma_next_decision_is_least(s: Seq<(i32, Option<bool>)>)
    requires
        asg_inv(s),
        count_unknowns(s) > 0,
    ensures
        asg_has(s, unknown_keys(s)[0] as int),
        asg_at(s, unknown_keys(s)[0] as int) is None,
        forall|x: i32|
            unknown_keys(s).contains(x) ==> unknown_keys(s)[0] <= x,
{
    let ks = unknown_keys(s);
    lemma_unknown_keys_sorted(s);
    lemma_unknown_keys_membership(s, ks[0]);
    let i = choose|i: int| 0 <= i < s.len() && s[i] == (ks[0], None::<bool>);
    lemma_at_entry(s, i);
    assert forall|x: i32| ks.contains(x) implies ks[0] <= x by {
        let j = choose|j: int| 0 <= j < ks.len() && ks[j] == x;
        if j > 0 {
            assert(ks[0] < ks[j]);
        }
    }
}

} // verus!
