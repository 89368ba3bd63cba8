//! Ordering of variable labels and the canonical variable order.

use vstd::prelude::*;

verus! {

/// Lexicographic order on labels, comparing characters by code point.
///
/// A proper prefix comes before any longer label that extends it.
pub open spec fn label_lt(a: Seq<char>, b: Seq<char>) -> bool
    decreases a.len(),
{
    if b.len() == 0 {
        false
    } else if a.len() == 0 {
        true
    } else if a[0] != b[0] {
        a[0] < b[0]
    } else {
        label_lt(a.drop_first(), b.drop_first())
    }
}

/// Every label strictly precedes each label after it.
pub open spec fn strictly_sorted(o: Seq<Seq<char>>) -> bool {
    forall|i: int, j: int| 0 <= i < j < o.len() ==> #[trigger] label_lt(o[i], o[j])
}

/// `o` is the canonical variable order of the label set `labels`:
/// its labels are sorted, without repeats, and are exactly those of the set.
pub open spec fn is_canonical_order(o: Seq<Seq<char>>, labels: Set<Seq<char>>) -> bool {
    strictly_sorted(o) && o.to_set() == labels
}

/// No label precedes itself.
pub proof fn lemma_label_lt_irreflexive(a: Seq<char>)
    ensures
        !label_lt(a, a),
    decreases a.len(),
{
    if a.len() > 0 {
        lemma_label_lt_irreflexive(a.drop_first());
    }
}

/// Of two different labels, one precedes the other.
pub proof fn lemma_label_lt_total(a: Seq<char>, b: Seq<char>)
    requires
        a != b,
    ensures
        label_lt(a, b) || label_lt(b, a),
    decreases a.len(),
{
    if a.len() > 0 && b.len() > 0 && a[0] == b[0] {
        if a.drop_first() == b.drop_first() {
            assert(a =~= seq![a[0]] + a.drop_first());
            assert(b =~= seq![b[0]] + b.drop_first());
        }
        lemma_label_lt_total(a.drop_first(), b.drop_first());
    } else if a.len() == 0 && b.len() == 0 {
        assert(a =~= b);
    }
}

/// The order on labels is transitive.
pub proof fn lemma_label_lt_transitive(a: Seq<char>, b: Seq<char>, c: Seq<char>)
    requires
        label_lt(a, b),
        label_lt(b, c),
    ensures
        label_lt(a, c),
    decreases a.len(),
{
    if a.len() > 0 && a[0] == b[0] && b[0] == c[0] {
        lemma_label_lt_transitive(a.drop_first(), b.drop_first(), c.drop_first());
    }
}

/// Compares two labels in the order `label_lt`.
pub fn label_less(a: &str, b: &str) -> (r: bool)
    ensures
        r == label_lt(a@, b@),
{
    let la = a.unicode_len();
    let lb = b.unicode_len();
    let mut i: usize = 0;
    assert(a@.skip(0) =~= a@);
    assert(b@.skip(0) =~= b@);
    while i < la && i < lb
        invariant
            la == a@.len(),
            lb == b@.len(),
            i <= la,
            i <= lb,
            label_lt(a@, b@) == label_lt(a@.skip(i as int), b@.skip(i as int)),
        decreases la - i,
    {
        let ca = a.get_char(i);
        let cb = b.get_char(i);
        assert(a@.skip(i as int)[0] == ca);
        assert(b@.skip(i as int)[0] == cb);
        if ca != cb {
            return ca < cb;
        }
        assert(a@.skip(i as int).drop_first() =~= a@.skip(i + 1));
        assert(b@.skip(i as int).drop_first() =~= b@.skip(i + 1));
        i = i + 1;
    }
    la < lb
}

/// The labels held by a sequence of strings.
pub open spec fn labels_of(v: Seq<String>) -> Seq<Seq<char>> {
    v.map_values(|s: String| s@)
}

/// A label set has at most one canonical order: two sorted sequences
/// without repeats that hold the same labels are equal.
pub proof fn lemma_canonical_order_unique(o1: Seq<Seq<char>>, o2: Seq<Seq<char>>)
    requires
        strictly_sorted(o1),
        strictly_sorted(o2),
        o1.to_set() == o2.to_set(),
    ensures
        o1 == o2,
    decreases o1.len(),
{
    if o1.len() == 0 || o2.len() == 0 {
        if o1.len() > 0 {
            assert(o1.to_set().contains(o1[0]));
        }
        if o2.len() > 0 {
            assert(o2.to_set().contains(o2[0]));
        }
        assert(o1 =~= o2);
    } else {
        assert(o1.to_set().contains(o1[0]));
        assert(o2.to_set().contains(o2[0]));
        let j = choose|j: int| 0 <= j < o2.len() && o2[j] == o1[0];
        let k = choose|k: int| 0 <= k < o1.len() && o1[k] == o2[0];
        if o1[0] != o2[0] {
            assert(label_lt(o1[0], o1[k]));
            assert(label_lt(o2[0], o2[j]));
            lemma_label_lt_transitive(o1[0], o2[0], o1[0]);
            lemma_label_lt_irreflexive(o1[0]);
        }
        let t1 = o1.drop_first();
        let t2 = o2.drop_first();
        assert forall|x: Seq<char>| t1.to_set().contains(x) implies t2.to_set().contains(x) by {
            let i = choose|i: int| 0 <= i < t1.len() && t1[i] == x;
            assert(o1.to_set().contains(o1[i + 1]));
            let m = choose|m: int| 0 <= m < o2.len() && o2[m] == x;
            if m == 0 {
                assert(label_lt(o1[0], o1[i + 1]));
                lemma_label_lt_irreflexive(x);
            }
            assert(t2[m - 1] == x);
        }
        assert forall|x: Seq<char>| t2.to_set().contains(x) implies t1.to_set().contains(x) by {
            let i = choose|i: int| 0 <= i < t2.len() && t2[i] == x;
            assert(o2.to_set().contains(o2[i + 1]));
            let m = choose|m: int| 0 <= m < o1.len() && o1[m] == x;
            if m == 0 {
                assert(label_lt(o2[0], o2[i + 1]));
                lemma_label_lt_irreflexive(x);
            }
            assert(t1[m - 1] == x);
        }
        assert(t1.to_set() =~= t2.to_set());
        lemma_canonical_order_unique(t1, t2);
        assert(o1 =~= seq![o1[0]] + t1);
        assert(o2 =~= seq![o2[0]] + t2);
    }
}

/// Sorts the labels and drops repeated ones.
pub fn canonical_order(labels: &Vec<String>) -> (r: Vec<String>)
    ensures
        is_canonical_order(labels_of(r@), labels_of(labels@).to_set()),
{
    let mut out: Vec<String> = Vec::new();
    let mut k: usize = 0;
    while k < labels.len()
        invariant
            k <= labels.len(),
            strictly_sorted(labels_of(out@)),
            labels_of(out@).to_set() == labels_of(labels@.subrange(0, k as int)).to_set(),
        decreases labels.len() - k,
    {
        let x = &labels[k];
        let mut pos: usize = 0;
        while pos < out.len() && label_less(out[pos].as_str(), x.as_str())
            invariant
                pos <= out.len(),
                forall|i: int| 0 <= i < pos ==> label_lt(#[trigger] out@[i]@, x@),
            decreases out.len() - pos,
        {
            pos = pos + 1;
        }
        let ghost before = labels_of(out@);
        let ghost seen = labels_of(labels@.subrange(0, k as int));
        assert(labels_of(labels@.subrange(0, k + 1)) =~= seen.push(x@));
        assert(seen.push(x@).to_set() =~= seen.to_set().insert(x@)) by {
            assert(seen.push(x@)[k as int] == x@);
            assert forall|y: Seq<char>| seen.to_set().contains(y) implies seen.push(x@).to_set().contains(y) by {
                let i = choose|i: int| 0 <= i < seen.len() && seen[i] == y;
                assert(seen.push(x@)[i] == y);
            }
        }
        if pos < out.len() && out[pos] == *x {
            assert(labels_of(out@).to_set() =~= before.to_set().insert(x@)) by {
                assert(before[pos as int] == x@);
            }
        } else {
            proof {
                if pos < out.len() {
                    lemma_label_lt_total(out@[pos as int]@, x@);
                }
            }
            out.insert(pos, x.clone());
            let ghost after = labels_of(out@);
            assert(after =~= before.insert(pos as int, x@));
            assert forall|i: int, j: int| 0 <= i < j < after.len() implies #[trigger] label_lt(after[i], after[j]) by {
                if j < pos {
                    assert(label_lt(before[i], before[j]));
                } else if j == pos {
                } else if i < pos {
                    assert(label_lt(before[i], x@));
                    assert(label_lt(x@, before[pos as int]));
                    if j - 1 > pos {
                        assert(label_lt(before[pos as int], before[j - 1]));
                        lemma_label_lt_transitive(x@, before[pos as int], before[j - 1]);
                    }
                    lemma_label_lt_transitive(before[i], x@, before[j - 1]);
                } else if i == pos {
                    if j - 1 > pos {
                        assert(label_lt(before[pos as int], before[j - 1]));
                        lemma_label_lt_transitive(x@, before[pos as int], before[j - 1]);
                    }
                } else {
                    assert(label_lt(before[i - 1], before[j - 1]));
                }
            }
            assert(after.to_set() =~= before.to_set().insert(x@)) by {
                assert(after[pos as int] == x@);
                assert forall|y: Seq<char>| before.to_set().contains(y) implies after.to_set().contains(y) by {
                    let i = choose|i: int| 0 <= i < before.len() && before[i] == y;
                    if i < pos {
                        assert(after[i] == y);
                    } else {
                        assert(after[i + 1] == y);
                    }
                }
            }
        }
        k = k + 1;
    }
    assert(labels@.subrange(0, k as int) =~= labels@);
    out
}

} // verus!
