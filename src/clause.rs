//! A clause: a disjunction of literals over named variables.

use vstd::prelude::*;

use crate::order::labels_of;

verus! {

/// The literal map that a list of (label, negated) entries denotes:
/// a later entry for a label overrides an earlier one.
pub open spec fn entries_map(s: Seq<(String, bool)>) -> Map<Seq<char>, bool>
    decreases s.len(),
{
    if s.len() == 0 {
        Map::empty()
    } else {
        entries_map(s.drop_last()).insert(s.last().0@, s.last().1)
    }
}

/// The labels of a list of entries, in order.
pub open spec fn entry_labels(s: Seq<(String, bool)>) -> Seq<Seq<char>> {
    s.map_values(|e: (String, bool)| e.0@)
}

/// The literal for `v` is satisfied by the value `value`: a negated literal
/// by `false`, a plain one by `true`.
pub open spec fn literal_holds(c: Map<Seq<char>, bool>, v: Seq<char>, value: bool) -> bool {
    c.contains_key(v) && value == !c[v]
}

/// The clause `c` is satisfied by the assignment `a`, read against the
/// variable order `order`: some position that both cover holds a variable
/// of the clause whose literal the assigned value satisfies.
pub open spec fn clause_holds(c: Map<Seq<char>, bool>, order: Seq<Seq<char>>, a: Seq<bool>) -> bool {
    exists|i: int| 0 <= i < order.len() && i < a.len() && #[trigger] literal_holds(c, order[i], a[i])
}

/// A disjunction of literals, at most one per variable.
pub struct Clause {
    literals: Vec<(String, bool)>,
}

impl View for Clause {
    type V = Map<Seq<char>, bool>;

    /// Each variable of the clause, mapped to whether its literal is negated.
    closed spec fn view(&self) -> Map<Seq<char>, bool> {
        entries_map(self.literals@)
    }
}

proof fn lemma_entries_last(s: Seq<(String, bool)>, j: int)
    requires
        0 <= j < s.len(),
        forall|m: int| j < m < s.len() ==> s[m].0@ != s[j].0@,
    ensures
        entries_map(s).contains_key(s[j].0@),
        entries_map(s)[s[j].0@] == s[j].1,
    decreases s.len(),
{
    if j < s.len() - 1 {
        let t = s.drop_last();
        assert(t[j] == s[j]);
        assert forall|m: int| j < m < t.len() implies t[m].0@ != t[j].0@ by {
            assert(t[m] == s[m]);
        }
        lemma_entries_last(t, j);
    }
}

proof fn lemma_entries_absent(s: Seq<(String, bool)>, v: Seq<char>)
    requires
        forall|m: int| 0 <= m < s.len() ==> s[m].0@ != v,
    ensures
        !entries_map(s).contains_key(v),
    decreases s.len(),
{
    if s.len() > 0 {
        let t = s.drop_last();
        assert forall|m: int| 0 <= m < t.len() implies t[m].0@ != v by {
            assert(t[m] == s[m]);
        }
        lemma_entries_absent(t, v);
    }
}

proof fn lemma_entries_update(s: Seq<(String, bool)>, j: int, e: (String, bool))
    requires
        0 <= j < s.len(),
        e.0@ == s[j].0@,
        forall|m: int| j < m < s.len() ==> s[m].0@ != s[j].0@,
    ensures
        entries_map(s.update(j, e)) == entries_map(s).insert(e.0@, e.1),
    decreases s.len(),
{
    let u = s.update(j, e);
    if j == s.len() - 1 {
        assert(u.drop_last() =~= s.drop_last());
        assert(entries_map(u) =~= entries_map(s).insert(e.0@, e.1));
    } else {
        let t = s.drop_last();
        assert(u.drop_last() =~= t.update(j, e));
        assert forall|m: int| j < m < t.len() implies t[m].0@ != t[j].0@ by {
            assert(t[m] == s[m]);
        }
        lemma_entries_update(t, j, e);
        assert(entries_map(u) =~= entries_map(s).insert(e.0@, e.1));
    }
}

proof fn lemma_entries_domain(s: Seq<(String, bool)>)
    ensures
        entries_map(s).dom() == entry_labels(s).to_set(),
    decreases s.len(),
{
    if s.len() > 0 {
        let t = s.drop_last();
        lemma_entries_domain(t);
        assert(entry_labels(s) =~= entry_labels(t).push(s.last().0@));
        assert forall|v: Seq<char>| entry_labels(t).to_set().contains(v) implies entry_labels(s).to_set().contains(v) by {
            let i = choose|i: int| 0 <= i < entry_labels(t).len() && entry_labels(t)[i] == v;
            assert(entry_labels(s)[i] == v);
        }
        assert(entry_labels(s)[s.len() - 1] == s.last().0@);
        assert(entries_map(s).dom() =~= entry_labels(s).to_set());
    }
}

impl Clause {
    /// Sets the literal of `variable` in this clause, replacing any earlier
    /// literal of that variable.
    pub fn add(&mut self, variable: &str, negated: bool)
        ensures
            final(self)@ == old(self)@.insert(variable@, negated),
    {
        let key = String::from_str(variable);
        match self.find(&key) {
            Some(j) => {
                proof {
                    lemma_entries_update(self.literals@, j as int, (key, negated));
                }
                self.literals.set(j, (key, negated));
            },
            None => {
                self.literals.push((key, negated));
                assert(self.literals@.drop_last() == old(self).literals@);
            },
        }
    }

    /// A clause without literals.
    pub fn new() -> (c: Clause)
        ensures
            c@ == Map::<Seq<char>, bool>::empty(),
    {
        Clause { literals: Vec::new() }
    }

    /// Lists the clause's variables.
    pub fn variable_labels(&self) -> (r: Vec<String>)
        ensures
            labels_of(r@).to_set() == self@.dom(),
    {
        let mut r: Vec<String> = Vec::new();
        let mut i: usize = 0;
        while i < self.literals.len()
            invariant
                i <= self.literals.len(),
                labels_of(r@) == entry_labels(self.literals@.subrange(0, i as int)),
            decreases self.literals.len() - i,
        {
            r.push(self.literals[i].0.clone());
            assert(entry_labels(self.literals@.subrange(0, i + 1)) =~= entry_labels(
                self.literals@.subrange(0, i as int),
            ).push(self.literals@[i as int].0@));
            assert(labels_of(r@) =~= labels_of(r@.drop_last()).push(r@.last()@));
            i = i + 1;
        }
        assert(self.literals@.subrange(0, i as int) =~= self.literals@);
        proof {
            lemma_entries_domain(self.literals@);
        }
        r
    }

    /// The index of the last entry for `key`, if there is one.
    fn find(&self, key: &String) -> (r: Option<usize>)
        ensures
            match r {
                Some(j) => {
                    &&& j < self.literals@.len()
                    &&& self.literals@[j as int].0@ == key@
                    &&& forall|m: int| j < m < self.literals@.len() ==> self.literals@[m].0@ != key@
                },
                None => forall|m: int| 0 <= m < self.literals@.len() ==> self.literals@[m].0@ != key@,
            },
    {
        let mut j: usize = self.literals.len();
        while j > 0
            invariant
                j <= self.literals@.len(),
                forall|m: int| j <= m < self.literals@.len() ==> self.literals@[m].0@ != key@,
            decreases j,
        {
            if self.literals[j - 1].0 == *key {
                return Some(j - 1);
            }
            j = j - 1;
        }
        None
    }

    /// Whether this clause is satisfied by `assignments`, read positionally
    /// against `variables`: true exactly when some position covered by both
    /// holds a variable of the clause whose literal the value there satisfies.
    pub fn test(&self, variables: &Vec<String>, assignments: &Vec<bool>) -> (r: bool)
        ensures
            r == clause_holds(self@, labels_of(variables@), assignments@),
    {
        let ghost order = labels_of(variables@);
        let mut i: usize = 0;
        while i < variables.len() && i < assignments.len()
            invariant
                order == labels_of(variables@),
                i <= variables.len(),
                forall|m: int| 0 <= m < i && m < assignments@.len() ==> !#[trigger] literal_holds(self@, order[m], assignments@[m]),
            decreases variables.len() - i,
        {
            match self.find(&variables[i]) {
                Some(j) => {
                    proof {
                        lemma_entries_last(self.literals@, j as int);
                    }
                    let negated = self.literals[j].1;
                    if negated != assignments[i] {
                        assert(literal_holds(self@, order[i as int], assignments@[i as int]));
                        return true;
                    }
                },
                None => {
                    proof {
                        lemma_entries_absent(self.literals@, variables@[i as int]@);
                    }
                },
            }
            i = i + 1;
        }
        false
    }
}

/// Over a variable order without repeats that covers every variable of the
/// clause, the clause holds of an assignment exactly when some literal
/// `(v, negated)` of it finds `!negated` at the position of `v`.
pub proof fn lemma_clause_holds_by_literal(c: Map<Seq<char>, bool>, order: Seq<Seq<char>>, a: Seq<bool>)
    requires
        order.no_duplicates(),
        a.len() == order.len(),
        forall|v: Seq<char>| #[trigger] c.contains_key(v) ==> order.contains(v),
    ensures
        clause_holds(c, order, a) <==> exists|v: Seq<char>|
            #[trigger] c.contains_key(v) && a[order.index_of(v)] == !c[v],
{
    if clause_holds(c, order, a) {
        let i = choose|i: int| 0 <= i < order.len() && i < a.len() && #[trigger] literal_holds(c, order[i], a[i]);
        let v = order[i];
        assert(order.contains(v));
        let j = order.index_of(v);
        assert(order[j] == v);
        assert(j == i);
        assert(c.contains_key(v) && a[order.index_of(v)] == !c[v]);
    }
    if exists|v: Seq<char>| #[trigger] c.contains_key(v) && a[order.index_of(v)] == !c[v] {
        let v = choose|v: Seq<char>| #[trigger] c.contains_key(v) && a[order.index_of(v)] == !c[v];
        assert(order.contains(v));
        let j = order.index_of(v);
        assert(literal_holds(c, order[j], a[j]));
    }
}

/// Setting a literal twice on the same variable leaves the clause as if
/// only the second setting had happened.
pub proof fn lemma_last_write_wins(c: Map<Seq<char>, bool>, v: Seq<char>, first: bool, second: bool)
    ensures
        c.insert(v, first).insert(v, second) == c.insert(v, second),
{
    assert(c.insert(v, first).insert(v, second) =~= c.insert(v, second));
}

} // verus!
