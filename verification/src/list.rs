use vstd::prelude::*;

verus! {

/// One retained entry of a list effect: a previously instantiated child node
/// paired with the item value that produced it. The retained sequence of
/// these records is ordered identically to the anchor's child list.
pub struct ListItem<T> {
    /// The identifier of the instantiated child node.
    pub node: u64,
    /// The item value the node was built for.
    pub item: T,
}

impl<T: Copy> Clone for ListItem<T> {
    fn clone(&self) -> (c: Self)
        ensures
            c == *self,
    {
        ListItem { node: self.node, item: self.item }
    }
}

impl<T: Copy> Copy for ListItem<T> {

}

/// The item values of a record sequence, in order.
pub open spec fn items_of<T>(s: Seq<ListItem<T>>) -> Seq<T> {
    s.map_values(|li: ListItem<T>| li.item)
}

/// The node identifiers of a record sequence, in order.
pub open spec fn nodes_of<T>(s: Seq<ListItem<T>>) -> Seq<u64> {
    s.map_values(|li: ListItem<T>| li.node)
}

/// A subrange of a duplicate-free sequence is duplicate-free.
pub proof fn lemma_nodup_subrange(s: Seq<u64>, i: int, j: int)
    requires
        s.no_duplicates(),
        0 <= i <= j <= s.len(),
    ensures
        s.subrange(i, j).no_duplicates(),
{
    assert forall|p: int, q: int|
        0 <= p < q < s.subrange(i, j).len() implies s.subrange(i, j)[p] != s.subrange(i, j)[q] by {
        assert(s.subrange(i, j)[p] == s[i + p]);
        assert(s.subrange(i, j)[q] == s[i + q]);
    }
}

/// Filtering keeps everything when the predicate holds of every element.
pub proof fn lemma_filter_all<A>(s: Seq<A>, pred: spec_fn(A) -> bool)
    requires
        forall|k: int| 0 <= k < s.len() ==> pred(#[trigger] s[k]),
    ensures
        s.filter(pred) == s,
    decreases s.len(),
{
    reveal(Seq::filter);
    if s.len() > 0 {
        assert(forall|k: int|
            0 <= k < s.drop_last().len() ==> pred(#[trigger] s.drop_last()[k]));
        lemma_filter_all(s.drop_last(), pred);
        assert(pred(s.last()));
        assert(s.drop_last().push(s.last()) =~= s);
    }
}

/// Filtering keeps nothing when the predicate holds of no element.
pub proof fn lemma_filter_none<A>(s: Seq<A>, pred: spec_fn(A) -> bool)
    requires
        forall|k: int| 0 <= k < s.len() ==> !pred(#[trigger] s[k]),
    ensures
        s.filter(pred) == Seq::<A>::empty(),
    decreases s.len(),
{
    reveal(Seq::filter);
    if s.len() > 0 {
        assert(forall|k: int|
            0 <= k < s.drop_last().len() ==> !pred(#[trigger] s.drop_last()[k]));
        lemma_filter_none(s.drop_last(), pred);
        assert(!pred(s.last()));
    }
}

/// Membership in a concatenation is membership in either part.
pub proof fn lemma_contains_concat<A>(s1: Seq<A>, s2: Seq<A>, x: A)
    ensures
        (s1 + s2).contains(x) <==> (s1.contains(x) || s2.contains(x)),
{
    if s1.contains(x) {
        let i = choose|i: int| 0 <= i < s1.len() && s1[i] == x;
        assert((s1 + s2)[i] == x);
    }
    if s2.contains(x) {
        let i = choose|i: int| 0 <= i < s2.len() && s2[i] == x;
        assert((s1 + s2)[s1.len() + i] == x);
    }
    if (s1 + s2).contains(x) {
        let i = choose|i: int| 0 <= i < (s1 + s2).len() && (s1 + s2)[i] == x;
        if i < s1.len() {
            assert(s1[i] == x);
        } else {
            assert(s2[i - s1.len()] == x);
        }
    }
}

/// `xs` is an ordered, not necessarily contiguous, selection from `ys`.
pub open spec fn is_subseq(xs: Seq<u64>, ys: Seq<u64>) -> bool
    decreases ys.len(),
{
    if xs.len() == 0 {
        true
    } else if ys.len() == 0 {
        false
    } else {
        ||| (xs[0] == ys[0] && is_subseq(xs.drop_first(), ys.drop_first()))
        ||| is_subseq(xs, ys.drop_first())
    }
}

/// Every sequence is a selection from itself.
pub proof fn lemma_subseq_refl(s: Seq<u64>)
    ensures
        is_subseq(s, s),
    decreases s.len(),
{
    if s.len() > 0 {
        lemma_subseq_refl(s.drop_first());
    }
}

/// A selection from `ys` is still a selection after elements are put in
/// front of `ys`.
pub proof fn lemma_subseq_prepend(xs: Seq<u64>, pre: Seq<u64>, ys: Seq<u64>)
    requires
        is_subseq(xs, ys),
    ensures
        is_subseq(xs, pre + ys),
    decreases pre.len(),
{
    if pre.len() == 0 {
        assert(pre + ys =~= ys);
    } else {
        lemma_subseq_prepend(xs, pre.drop_first(), ys);
        assert((pre + ys).drop_first() =~= pre.drop_first() + ys);
        assert((pre + ys).len() > 0);
        if xs.len() > 0 {
            assert(is_subseq(xs, (pre + ys).drop_first()));
        }
    }
}

/// Selections concatenate: picking from `y1` and then from `y2` is picking
/// from `y1 + y2`.
pub proof fn lemma_subseq_concat(x1: Seq<u64>, y1: Seq<u64>, x2: Seq<u64>, y2: Seq<u64>)
    requires
        is_subseq(x1, y1),
        is_subseq(x2, y2),
    ensures
        is_subseq(x1 + x2, y1 + y2),
    decreases y1.len(),
{
    if x1.len() == 0 {
        assert(x1 + x2 =~= x2);
        lemma_subseq_prepend(x2, y1, y2);
    } else {
        assert(y1.len() > 0);
        assert((x1 + x2).len() > 0);
        assert((y1 + y2).len() > 0);
        assert((x1 + x2)[0] == x1[0]);
        assert((y1 + y2)[0] == y1[0]);
        if x1[0] == y1[0] && is_subseq(x1.drop_first(), y1.drop_first()) {
            lemma_subseq_concat(x1.drop_first(), y1.drop_first(), x2, y2);
            assert((x1 + x2).drop_first() =~= x1.drop_first() + x2);
            assert((y1 + y2).drop_first() =~= y1.drop_first() + y2);
        } else {
            assert(is_subseq(x1, y1.drop_first()));
            lemma_subseq_concat(x1, y1.drop_first(), x2, y2);
            assert((y1 + y2).drop_first() =~= y1.drop_first() + y2);
        }
    }
}

/// A selection takes its elements from the source, and from a duplicate-free
/// source it takes each at most once.
pub proof fn lemma_subseq_props(xs: Seq<u64>, ys: Seq<u64>)
    requires
        is_subseq(xs, ys),
    ensures
        forall|x: u64| xs.contains(x) ==> ys.contains(x),
        ys.no_duplicates() ==> xs.no_duplicates(),
        xs.len() <= ys.len(),
    decreases ys.len(),
{
    if xs.len() == 0 {
        assert(forall|x: u64| !xs.contains(x));
    } else {
        assert(ys.len() > 0);
        if xs[0] == ys[0] && is_subseq(xs.drop_first(), ys.drop_first()) {
            lemma_subseq_props(xs.drop_first(), ys.drop_first());
            assert forall|x: u64| xs.contains(x) implies ys.contains(x) by {
                let i = choose|i: int| 0 <= i < xs.len() && xs[i] == x;
                if i == 0 {
                    assert(ys[0] == x);
                } else {
                    assert(xs.drop_first()[i - 1] == x);
                    assert(xs.drop_first().contains(x));
                    assert(ys.drop_first().contains(x));
                    let j = choose|j: int| 0 <= j < ys.drop_first().len() && ys.drop_first()[j] == x;
                    assert(ys[j + 1] == x);
                }
            }
            if ys.no_duplicates() {
                assert(ys.drop_first().no_duplicates()) by {
                    assert forall|i: int, j: int|
                        0 <= i < j < ys.drop_first().len() implies ys.drop_first()[i] != ys.drop_first()[j] by {
                        assert(ys.drop_first()[i] == ys[i + 1]);
                        assert(ys.drop_first()[j] == ys[j + 1]);
                    }
                }
                assert(xs.drop_first().no_duplicates());
                assert(!ys.drop_first().contains(ys[0])) by {
                    if ys.drop_first().contains(ys[0]) {
                        let j = choose|j: int|
                            0 <= j < ys.drop_first().len() && ys.drop_first()[j] == ys[0];
                        assert(ys[j + 1] == ys[0]);
                    }
                }
                assert(!xs.drop_first().contains(xs[0]));
                assert forall|i: int, j: int| 0 <= i < j < xs.len() implies xs[i] != xs[j] by {
                    if i == 0 {
                        if xs[0] == xs[j] {
                            assert(xs.drop_first()[j - 1] == xs[0]);
                            assert(xs.drop_first().contains(xs[0]));
                        }
                    } else {
                        assert(xs.drop_first()[i - 1] == xs[i]);
                        assert(xs.drop_first()[j - 1] == xs[j]);
                    }
                }
            }
        } else {
            assert(is_subseq(xs, ys.drop_first()));
            lemma_subseq_props(xs, ys.drop_first());
            assert forall|x: u64| xs.contains(x) implies ys.contains(x) by {
                assert(ys.drop_first().contains(x));
                let j = choose|j: int| 0 <= j < ys.drop_first().len() && ys.drop_first()[j] == x;
                assert(ys[j + 1] == x);
            }
            if ys.no_duplicates() {
                assert(ys.drop_first().no_duplicates()) by {
                    assert forall|i: int, j: int|
                        0 <= i < j < ys.drop_first().len() implies ys.drop_first()[i] != ys.drop_first()[j] by {
                        assert(ys.drop_first()[i] == ys[i + 1]);
                        assert(ys.drop_first()[j] == ys[j + 1]);
                    }
                }
            }
        }
    }
}

} // verus!
