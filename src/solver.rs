//! The solver: a registry of clauses and variables, and the exhaustive
//! enumeration of assignments.

use vstd::prelude::*;

use crate::clause::{clause_holds, Clause};
use crate::order::{canonical_order, is_canonical_order, labels_of, lemma_canonical_order_unique};

verus! {

/// Every variable label that occurs in some clause of `cs`.
pub open spec fn clause_labels(cs: Seq<Map<Seq<char>, bool>>) -> Set<Seq<char>>
    decreases cs.len(),
{
    if cs.len() == 0 {
        Set::empty()
    } else {
        clause_labels(cs.drop_last()).union(cs.last().dom())
    }
}

/// The assignment `a` satisfies every clause of `cs`.
pub open spec fn satisfies_all(cs: Seq<Map<Seq<char>, bool>>, order: Seq<Seq<char>>, a: Seq<bool>) -> bool {
    forall|k: int| 0 <= k < cs.len() ==> clause_holds(#[trigger] cs[k], order, a)
}

/// `satisfies_all` as a predicate on assignments.
pub open spec fn satisfying(cs: Seq<Map<Seq<char>, bool>>, order: Seq<Seq<char>>) -> spec_fn(Seq<bool>) -> bool {
    |a: Seq<bool>| satisfies_all(cs, order, a)
}

/// Every extension of `p` by `k` more values, in the order of the search:
/// all those that continue with `true` come before all those that continue
/// with `false`.
pub open spec fn extensions(p: Seq<bool>, k: nat) -> Seq<Seq<bool>>
    decreases k,
{
    if k == 0 {
        seq![p]
    } else {
        extensions(p.push(true), (k - 1) as nat) + extensions(p.push(false), (k - 1) as nat)
    }
}

/// All assignments to `n` variables, in the order of the search.
pub open spec fn all_assignments(n: nat) -> Seq<Seq<bool>> {
    extensions(Seq::empty(), n)
}

/// The satisfying assignments of the clauses `cs` over the variable order
/// `order`, in the order of the search.
pub open spec fn solutions(cs: Seq<Map<Seq<char>, bool>>, order: Seq<Seq<char>>) -> Seq<Seq<bool>> {
    all_assignments(order.len()).filter(satisfying(cs, order))
}

/// The assignments held by a list of vectors.
pub open spec fn rows(v: Seq<Vec<bool>>) -> Seq<Seq<bool>> {
    v.map_values(|r: Vec<bool>| r@)
}

/// The outcome of a search.
#[derive(Debug, PartialEq, Eq)]
pub enum Satisfiability {
    /// Every satisfying assignment, in the order of the search.
    Satisfiable(Vec<Vec<bool>>),
    /// No assignment satisfies every clause.
    NotSatisfiable,
}

impl View for Satisfiability {
    type V = Option<Seq<Seq<bool>>>;

    open spec fn view(&self) -> Option<Seq<Seq<bool>>> {
        match self {
            Satisfiability::Satisfiable(s) => Some(rows(s@)),
            Satisfiability::NotSatisfiable => None,
        }
    }
}

/// What a search over `order` reports for the clauses `cs`.
pub open spec fn outcome(cs: Seq<Map<Seq<char>, bool>>, order: Seq<Seq<char>>) -> Option<Seq<Seq<bool>>> {
    if solutions(cs, order).len() == 0 {
        None
    } else {
        Some(solutions(cs, order))
    }
}

proof fn lemma_filter_single(x: Seq<bool>, pred: spec_fn(Seq<bool>) -> bool)
    ensures
        seq![x].filter(pred) == (if pred(x) { seq![x] } else { Seq::empty() }),
{
    reveal_with_fuel(Seq::filter, 2);
    assert(seq![x].drop_last() =~= Seq::<Seq<bool>>::empty());
    if pred(x) {
        assert(Seq::<Seq<bool>>::empty().push(x) =~= seq![x]);
    }
}

/// A set of clauses and the labels of their variables.
pub struct Solver {
    clauses: Vec<Clause>,
    variables: Vec<String>,
}

impl Solver {
    /// The registered clauses, in order of registration.
    pub closed spec fn clause_maps(&self) -> Seq<Map<Seq<char>, bool>> {
        self.clauses@.map_values(|c: Clause| c@)
    }

    /// The registered variable labels, possibly with repeats.
    pub closed spec fn registered_labels(&self) -> Seq<Seq<char>> {
        labels_of(self.variables@)
    }

    /// The registered labels are exactly those of the registered clauses.
    pub open spec fn wf(&self) -> bool {
        self.registered_labels().to_set() == clause_labels(self.clause_maps())
    }

    /// A solver without clauses.
    pub fn new() -> (s: Solver)
        ensures
            s.wf(),
            s.clause_maps() == Seq::<Map<Seq<char>, bool>>::empty(),
    {
        let s = Solver { variables: Vec::new(), clauses: Vec::new() };
        assert(s.registered_labels().to_set() =~= Set::empty());
        s
    }

    /// Registers a clause, and with it the labels of its variables.
    pub fn add(&mut self, clause: Clause)
        requires
            old(self).wf(),
        ensures
            final(self).wf(),
            final(self).clause_maps() == old(self).clause_maps().push(clause@),
    {
        let keys = clause.variable_labels();
        let ghost start = self.registered_labels();
        let mut i: usize = 0;
        while i < keys.len()
            invariant
                i <= keys.len(),
                self.clauses == old(self).clauses,
                self.registered_labels() == start + labels_of(keys@.subrange(0, i as int)),
            decreases keys.len() - i,
        {
            let ghost before = self.registered_labels();
            self.variables.push(keys[i].clone());
            assert(self.registered_labels() =~= before.push(keys@[i as int]@));
            assert(labels_of(keys@.subrange(0, i + 1)) =~= labels_of(keys@.subrange(0, i as int)).push(keys@[i as int]@));
            i = i + 1;
        }
        self.clauses.push(clause);
        assert(self.clause_maps() =~= old(self).clause_maps().push(clause@));
        assert(self.clause_maps().drop_last() =~= old(self).clause_maps());
        assert(keys@.subrange(0, i as int) =~= keys@);
        let ghost added = labels_of(keys@);
        assert forall|v: Seq<char>| #[trigger] self.registered_labels().to_set().contains(v) <==> (start.to_set().contains(v) || added.to_set().contains(v)) by {
            let all = self.registered_labels();
            if all.to_set().contains(v) {
                let m = choose|m: int| 0 <= m < all.len() && all[m] == v;
                if m >= start.len() {
                    assert(added[m - start.len()] == v);
                }
            }
            if start.to_set().contains(v) {
                let m = choose|m: int| 0 <= m < start.len() && start[m] == v;
                assert(all[m] == v);
            }
            if added.to_set().contains(v) {
                let m = choose|m: int| 0 <= m < added.len() && added[m] == v;
                assert(all[m + start.len()] == v);
            }
        }
        assert(self.registered_labels().to_set() =~= clause_labels(self.clause_maps()));
    }

    /// The canonical variable order: the labels of all registered clauses,
    /// sorted and without repeats. Position `i` of every assignment that
    /// `solve` reports belongs to the `i`-th label of this order.
    pub fn variable_order(&self) -> (r: Vec<String>)
        requires
            self.wf(),
        ensures
            is_canonical_order(labels_of(r@), clause_labels(self.clause_maps())),
    {
        canonical_order(&self.variables)
    }

    /// Searches every assignment over the canonical variable order and
    /// reports those that satisfy all registered clauses. The solver keeps
    /// its clauses and afterwards holds its labels in canonical order; each
    /// call starts from an empty set of solutions, so calling again reports
    /// the same outcome.
    pub fn solve(&mut self) -> (r: Satisfiability)
        requires
            old(self).wf(),
        ensures
            final(self).wf(),
            final(self).clause_maps() == old(self).clause_maps(),
            is_canonical_order(final(self).registered_labels(), clause_labels(old(self).clause_maps())),
            r@ == outcome(old(self).clause_maps(), final(self).registered_labels()),
    {
        self.variables = self.variable_order();
        let length = self.variables.len();
        let mut found: Vec<Vec<bool>> = Vec::new();
        self.recurse(0, Vec::with_capacity(length), &mut found);
        assert(rows(found@) =~= solutions(self.clause_maps(), self.registered_labels()));
        if found.len() == 0 {
            Satisfiability::NotSatisfiable
        } else {
            Satisfiability::Satisfiable(found)
        }
    }

    /// Appends to `found`, in the order of the search, every extension of
    /// `assignments` to all variables that satisfies all clauses.
    fn recurse(&self, index: usize, assignments: Vec<bool>, found: &mut Vec<Vec<bool>>)
        requires
            index == assignments@.len(),
            index <= self.variables@.len(),
        ensures
            rows(final(found)@) == rows(old(found)@) + extensions(
                assignments@,
                (self.variables@.len() - index) as nat,
            ).filter(satisfying(self.clause_maps(), self.registered_labels())),
        decreases self.variables@.len() - index,
    {
        let ghost cs = self.clause_maps();
        let ghost order = self.registered_labels();
        let mut assignments = assignments;
        if index == self.variables.len() {
            proof {
                lemma_filter_single(assignments@, satisfying(cs, order));
            }
            let mut k: usize = 0;
            let mut all_hold = true;
            while all_hold && k < self.clauses.len()
                invariant
                    k <= self.clauses@.len(),
                    cs == self.clause_maps(),
                    order == self.registered_labels(),
                    forall|m: int| 0 <= m < k ==> clause_holds(#[trigger] cs[m], order, assignments@),
                    !all_hold ==> !satisfies_all(cs, order, assignments@),
                decreases self.clauses@.len() - k + (if all_hold { 1int } else { 0int }),
            {
                let holds = self.clauses[k].test(&self.variables, &assignments);
                assert(cs[k as int] == self.clauses@[k as int]@);
                if holds {
                    k = k + 1;
                } else {
                    all_hold = false;
                }
            }
            assert(extensions(assignments@, 0) == seq![assignments@]);
            if all_hold {
                assert(satisfies_all(cs, order, assignments@));
                assert(satisfying(cs, order)(assignments@));
                found.push(assignments);
                assert(rows(found@) =~= rows(old(found)@) + seq![assignments@]);
            } else {
                assert(!satisfying(cs, order)(assignments@));
                assert(rows(found@) =~= rows(old(found)@) + Seq::<Seq<bool>>::empty());
            }
        } else {
            let ghost p = assignments@;
            let mut copy = assignments.clone();
            assert(copy@ =~= p);
            assignments.push(true);
            copy.push(false);
            self.recurse(index + 1, assignments, found);
            self.recurse(index + 1, copy, found);
            let ghost k = (self.variables@.len() - index - 1) as nat;
            proof {
                Seq::filter_distributes_over_add(extensions(p.push(true), k), extensions(p.push(false), k), satisfying(cs, order));
            }
            assert(rows(found@) =~= rows(old(found)@) + extensions(p, (k + 1) as nat).filter(satisfying(cs, order)));
        }
    }
}

/// Two to the power `n`: the number of assignments to `n` variables.
pub open spec fn two_to_the(n: nat) -> nat
    decreases n,
{
    if n == 0 {
        1
    } else {
        2 * two_to_the((n - 1) as nat)
    }
}

proof fn lemma_extensions_shape(p: Seq<bool>, k: nat)
    ensures
        extensions(p, k).len() == two_to_the(k),
        forall|i: int| 0 <= i < extensions(p, k).len() ==> (#[trigger] extensions(p, k)[i]).len() == p.len() + k
            && extensions(p, k)[i].subrange(0, p.len() as int) == p,
    decreases k,
{
    if k > 0 {
        let k1 = (k - 1) as nat;
        let l = extensions(p.push(true), k1);
        let r = extensions(p.push(false), k1);
        lemma_extensions_shape(p.push(true), k1);
        lemma_extensions_shape(p.push(false), k1);
        assert forall|i: int| 0 <= i < extensions(p, k).len() implies (#[trigger] extensions(p, k)[i]).len() == p.len() + k
            && extensions(p, k)[i].subrange(0, p.len() as int) == p by {
            let x = extensions(p, k)[i];
            if i < l.len() {
                assert(x == l[i]);
                assert(x.subrange(0, p.len() as int) =~= x.subrange(0, p.len() + 1int).subrange(0, p.len() as int));
                assert(p.push(true).subrange(0, p.len() as int) =~= p);
            } else {
                assert(x == r[i - l.len()]);
                assert(x.subrange(0, p.len() as int) =~= x.subrange(0, p.len() + 1int).subrange(0, p.len() as int));
                assert(p.push(false).subrange(0, p.len() as int) =~= p);
            }
        }
    } else {
        assert(p.subrange(0, p.len() as int) =~= p);
    }
}

proof fn lemma_extensions_complete(p: Seq<bool>, k: nat, x: Seq<bool>)
    requires
        x.len() == p.len() + k,
        x.subrange(0, p.len() as int) == p,
    ensures
        extensions(p, k).contains(x),
    decreases k,
{
    if k == 0 {
        assert(x =~= p);
        assert(extensions(p, k)[0] == x);
    } else {
        let k1 = (k - 1) as nat;
        let l = extensions(p.push(true), k1);
        let r = extensions(p.push(false), k1);
        let q = p.push(x[p.len() as int]);
        assert(x.subrange(0, q.len() as int) =~= q);
        lemma_extensions_complete(q, k1, x);
        if x[p.len() as int] {
            let i = choose|i: int| 0 <= i < l.len() && l[i] == x;
            assert(extensions(p, k)[i] == x);
        } else {
            let i = choose|i: int| 0 <= i < r.len() && r[i] == x;
            assert(extensions(p, k)[l.len() + i] == x);
        }
    }
}

proof fn lemma_filter_keeps_all(s: Seq<Seq<bool>>, pred: spec_fn(Seq<bool>) -> bool)
    requires
        forall|i: int| 0 <= i < s.len() ==> pred(#[trigger] s[i]),
    ensures
        s.filter(pred) == s,
    decreases s.len(),
{
    reveal(Seq::filter);
    if s.len() > 0 {
        let t = s.drop_last();
        assert forall|i: int| 0 <= i < t.len() implies pred(#[trigger] t[i]) by {
            assert(t[i] == s[i]);
        }
        lemma_filter_keeps_all(t, pred);
        assert(pred(s[s.len() - 1]));
        assert(t.push(s.last()) =~= s);
    }
}

proof fn lemma_filter_drops(s: Seq<Seq<bool>>, pred: spec_fn(Seq<bool>) -> bool, i: int)
    requires
        0 <= i < s.len(),
        !pred(s[i]),
    ensures
        s.filter(pred).len() < s.len(),
    decreases s.len(),
{
    reveal(Seq::filter);
    let t = s.drop_last();
    t.lemma_filter_len(pred);
    if i < s.len() - 1 {
        assert(t[i] == s[i]);
        lemma_filter_drops(t, pred, i);
    }
}

/// Every assignment that the search reports gives a value to each variable
/// and satisfies every clause.
pub proof fn lemma_solutions_sound(cs: Seq<Map<Seq<char>, bool>>, order: Seq<Seq<char>>, a: Seq<bool>)
    requires
        solutions(cs, order).contains(a),
    ensures
        a.len() == order.len(),
        satisfies_all(cs, order, a),
{
    let all = all_assignments(order.len());
    let sols = solutions(cs, order);
    let i = choose|i: int| 0 <= i < sols.len() && sols[i] == a;
    all.lemma_filter_pred(satisfying(cs, order), i);
    assert(satisfying(cs, order)(sols[i]));
    lemma_extensions_shape(Seq::empty(), order.len());
    lemma_filter_member(all, satisfying(cs, order), a);
    let j = choose|j: int| 0 <= j < all.len() && all[j] == a;
    assert(all[j].len() == order.len());
}

proof fn lemma_filter_member(s: Seq<Seq<bool>>, pred: spec_fn(Seq<bool>) -> bool, x: Seq<bool>)
    requires
        s.filter(pred).contains(x),
    ensures
        s.contains(x),
    decreases s.len(),
{
    reveal(Seq::filter);
    if s.len() > 0 {
        let t = s.drop_last();
        let f = t.filter(pred);
        if f.contains(x) {
            lemma_filter_member(t, pred, x);
            let i = choose|i: int| 0 <= i < t.len() && t[i] == x;
            assert(s[i] == x);
        } else {
            assert(s[s.len() - 1] == x);
        }
    }
}

/// Every assignment to all variables that the search does not report is
/// rejected by at least one clause.
pub proof fn lemma_solutions_complete(cs: Seq<Map<Seq<char>, bool>>, order: Seq<Seq<char>>, a: Seq<bool>)
    requires
        a.len() == order.len(),
        !solutions(cs, order).contains(a),
    ensures
        exists|k: int| 0 <= k < cs.len() && !clause_holds(#[trigger] cs[k], order, a),
{
    let all = all_assignments(order.len());
    assert(a.subrange(0, 0) =~= Seq::<bool>::empty());
    lemma_extensions_complete(Seq::empty(), order.len(), a);
    let i = choose|i: int| 0 <= i < all.len() && all[i] == a;
    if satisfying(cs, order)(all[i]) {
        all.lemma_filter_contains(satisfying(cs, order), i);
    }
    assert(!satisfies_all(cs, order, a));
}

/// The search reports at most two to the power of the number of variables
/// assignments, and exactly that many when there are no clauses.
pub proof fn lemma_solutions_count(cs: Seq<Map<Seq<char>, bool>>, order: Seq<Seq<char>>)
    ensures
        solutions(cs, order).len() <= two_to_the(order.len()),
        solutions(cs, order).len() == two_to_the(order.len()) <==> cs.len() == 0,
{
    let all = all_assignments(order.len());
    let pred = satisfying(cs, order);
    lemma_extensions_shape(Seq::empty(), order.len());
    all.lemma_filter_len(pred);
    if cs.len() == 0 {
        assert forall|i: int| 0 <= i < all.len() implies pred(#[trigger] all[i]) by {
            assert(satisfies_all(cs, order, all[i]));
        }
        lemma_filter_keeps_all(all, pred);
    } else {
        let c = cs[0];
        let a = Seq::new(order.len(), |i: int| if c.contains_key(order[i]) { c[order[i]] } else { true });
        assert(!clause_holds(c, order, a));
        assert(!satisfies_all(cs, order, a));
        assert(a.subrange(0, 0) =~= Seq::<bool>::empty());
        lemma_extensions_complete(Seq::empty(), order.len(), a);
        let i = choose|i: int| 0 <= i < all.len() && all[i] == a;
        assert(!pred(all[i]));
        lemma_filter_drops(all, pred, i);
    }
}

/// The canonical variable order, and with it the outcome of the search,
/// depends only on the clauses: two searches over the same clauses report
/// the same outcome.
pub proof fn lemma_solve_deterministic(cs: Seq<Map<Seq<char>, bool>>, o1: Seq<Seq<char>>, o2: Seq<Seq<char>>)
    requires
        is_canonical_order(o1, clause_labels(cs)),
        is_canonical_order(o2, clause_labels(cs)),
    ensures
        o1 == o2,
        outcome(cs, o1) == outcome(cs, o2),
{
    lemma_canonical_order_unique(o1, o2);
}

} // verus!
