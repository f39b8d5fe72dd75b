use vstd::prelude::*;

use crate::items::ItemEq;
use crate::lcs::aligned_eq;
use crate::lcs::lcs;
use crate::lcs::lemma_pointwise_run_len;
use crate::lcs::lemma_run_len_props;
use crate::list::ListItem;
use crate::list::is_subseq;
use crate::list::items_of;
use crate::list::lemma_contains_concat;
use crate::list::lemma_filter_all;
use crate::list::lemma_filter_none;
use crate::list::lemma_nodup_subrange;
use crate::list::lemma_subseq_concat;
use crate::list::lemma_subseq_props;
use crate::list::lemma_subseq_refl;
use crate::list::nodes_of;

verus! {

/// The records of `out` whose node existed before the reconciliation pass
/// that started with the identifier counter at `base`: the reused nodes.
pub open spec fn kept_of<T>(out: Seq<ListItem<T>>, base: int) -> Seq<ListItem<T>> {
    out.filter(|li: ListItem<T>| (li.node as int) < base)
}

/// What one reconciliation of the retained records `prevs` against the fresh
/// items `nexts` produces, with the node identifier counter running from
/// `id0` to `id1` and every node that existed beforehand below `base`.
///
/// `out` is the new retained sequence, `created` the records whose nodes were
/// freshly instantiated, `destroyed` the previous nodes that were removed.
#[verifier::opaque]
pub open spec fn built<T: ItemEq>(
    prevs: Seq<ListItem<T>>,
    nexts: Seq<T>,
    out: Seq<ListItem<T>>,
    created: Seq<ListItem<T>>,
    destroyed: Seq<u64>,
    base: int,
    id0: int,
    id1: int,
) -> bool {
    // The counter only grows, by one per created node.
    &&& base <= id0 <= id1
    &&& created.len() == id1 - id0
    // The new retained sequence carries exactly the fresh items, in order.
    &&& out.len() == nexts.len()
    &&& items_of(out) == nexts
    // Created nodes take consecutive identifiers and stand in the output.
    &&& (forall|k: int|
        0 <= k < created.len() ==> (#[trigger] created[k]).node as int == id0 + k)
    &&& (forall|k: int| 0 <= k < created.len() ==> out.contains(#[trigger] created[k]))
    // Every output node is either reused or freshly created by this pass.
    &&& (forall|k: int|
        0 <= k < out.len() ==> ((((#[trigger] out[k]).node as int) < base) || (id0
            <= out[k].node as int && ((out[k].node as int) < id1))))
    // Reused nodes keep their relative order from the previous sequence.
    &&& is_subseq(nodes_of(kept_of(out, base)), nodes_of(prevs))
    // A node is reused only for an item its previous item matches.
    &&& (forall|k: int|
        0 <= k < out.len() && (((#[trigger] out[k]).node as int) < base) ==> exists|j: int|
            0 <= j < prevs.len() && prevs[j].node == out[k].node && prevs[j].item.eq_spec(
                &nexts[k],
            ))
    // Destroyed nodes come from the previous sequence, in order.
    &&& is_subseq(destroyed, nodes_of(prevs))
    // Every previous node is either destroyed or reused, never both.
    &&& (forall|j: int|
        0 <= j < prevs.len() ==> destroyed.contains((#[trigger] prevs[j]).node) || nodes_of(
            out,
        ).contains(prevs[j].node))
    &&& (forall|j: int|
        0 <= j < prevs.len() ==> !(destroyed.contains((#[trigger] prevs[j]).node) && nodes_of(
            out,
        ).contains(prevs[j].node)))
    // Bookkeeping: destructions balance creations.
    &&& destroyed.len() + nexts.len() == prevs.len() + created.len()
    &&& created.len() + kept_of(out, base).len() == out.len()
    // No node stands in the output twice.
    &&& nodes_of(out).no_duplicates()
}

/// A destroyed record `j` and a fresh node at output position `k` cannot be
/// paired up because a reused record crosses them: some record kept under a
/// previous index `j2` stands at an output position `k2` on the other side.
pub open spec fn blocked<T: ItemEq>(
    prevs: Seq<ListItem<T>>,
    out: Seq<ListItem<T>>,
    base: int,
    j: int,
    k: int,
) -> bool {
    exists|k2: int, j2: int|
        0 <= k2 < out.len() && 0 <= j2 < prevs.len() && (#[trigger] prevs[j2]).node == (
        #[trigger] out[k2]).node && ((out[k2].node as int) < base) && ((k2 < k && j2 > j) || (k2
            > k && j2 < j))
}

/// The reuse correspondence is maximal: whenever a destroyed record's item
/// equals the item of a freshly created node, some reused record crosses the
/// pair — it could not have been added without breaking the kept order.
pub open spec fn maximal_matching<T: ItemEq>(
    prevs: Seq<ListItem<T>>,
    nexts: Seq<T>,
    out: Seq<ListItem<T>>,
    destroyed: Seq<u64>,
    base: int,
) -> bool {
    forall|j: int, k: int|
        0 <= j < prevs.len() && 0 <= k < out.len() && destroyed.contains(
            (#[trigger] prevs[j]).node,
        ) && (((#[trigger] out[k]).node as int) >= base) && prevs[j].item.eq_spec(&nexts[k])
            ==> blocked(prevs, out, base, j, k)
}

/// Reconciling two adjacent spans one after the other reconciles their
/// concatenation: the outputs, creations and destructions concatenate.
#[verifier::rlimit(40)]
pub proof fn lemma_built_concat<T: ItemEq>(
    prevs1: Seq<ListItem<T>>,
    nexts1: Seq<T>,
    out1: Seq<ListItem<T>>,
    created1: Seq<ListItem<T>>,
    destroyed1: Seq<u64>,
    prevs2: Seq<ListItem<T>>,
    nexts2: Seq<T>,
    out2: Seq<ListItem<T>>,
    created2: Seq<ListItem<T>>,
    destroyed2: Seq<u64>,
    base: int,
    id0: int,
    id1: int,
    id2: int,
)
    requires
        built(prevs1, nexts1, out1, created1, destroyed1, base, id0, id1),
        built(prevs2, nexts2, out2, created2, destroyed2, base, id1, id2),
        nodes_of(prevs1 + prevs2).no_duplicates(),
        forall|j: int| 0 <= j < prevs1.len() ==> ((#[trigger] prevs1[j]).node as int) < base,
        forall|j: int| 0 <= j < prevs2.len() ==> ((#[trigger] prevs2[j]).node as int) < base,
    ensures
        built(
            prevs1 + prevs2,
            nexts1 + nexts2,
            out1 + out2,
            created1 + created2,
            destroyed1 + destroyed2,
            base,
            id0,
            id2,
        ),
{
    reveal(built);
    let prevs = prevs1 + prevs2;
    let nexts = nexts1 + nexts2;
    let out = out1 + out2;
    let created = created1 + created2;
    let destroyed = destroyed1 + destroyed2;
    let pred = |li: ListItem<T>| (li.node as int) < base;

    assert(nodes_of(prevs) =~= nodes_of(prevs1) + nodes_of(prevs2));
    assert(nodes_of(out) =~= nodes_of(out1) + nodes_of(out2));
    assert(items_of(out) =~= items_of(out1) + items_of(out2));
    assert(items_of(out) =~= nexts);

    // The two previous spans hold no node in common.
    assert forall|j1: int, j2: int|
        0 <= j1 < prevs1.len() && 0 <= j2 < prevs2.len() implies prevs1[j1].node
        != prevs2[j2].node by {
        assert(nodes_of(prevs)[j1] == prevs1[j1].node);
        assert(nodes_of(prevs)[prevs1.len() + j2] == prevs2[j2].node);
    }
    assert(nodes_of(prevs1).no_duplicates()) by {
        assert forall|p: int, q: int|
            0 <= p < q < nodes_of(prevs1).len() implies nodes_of(prevs1)[p] != nodes_of(
            prevs1,
        )[q] by {
            assert(nodes_of(prevs)[p] == nodes_of(prevs1)[p]);
            assert(nodes_of(prevs)[q] == nodes_of(prevs1)[q]);
        }
    }
    assert(nodes_of(prevs2).no_duplicates()) by {
        assert forall|p: int, q: int|
            0 <= p < q < nodes_of(prevs2).len() implies nodes_of(prevs2)[p] != nodes_of(
            prevs2,
        )[q] by {
            assert(nodes_of(prevs)[prevs1.len() + p] == nodes_of(prevs2)[p]);
            assert(nodes_of(prevs)[prevs1.len() + q] == nodes_of(prevs2)[q]);
        }
    }

    // Created nodes: consecutive identifiers, and each stands in the output.
    assert forall|k: int| 0 <= k < created.len() implies (#[trigger] created[k]).node as int == id0
        + k by {
        if k < created1.len() {
            assert(created[k] == created1[k]);
        } else {
            assert(created[k] == created2[k - created1.len()]);
        }
    }
    assert forall|k: int| 0 <= k < created.len() implies out.contains(#[trigger] created[k]) by {
        if k < created1.len() {
            assert(out1.contains(created1[k]));
            lemma_contains_concat(out1, out2, created[k]);
        } else {
            assert(out2.contains(created2[k - created1.len()]));
            lemma_contains_concat(out1, out2, created[k]);
        }
    }

    // Output nodes are reused or created by one of the two spans.
    assert forall|k: int| 0 <= k < out.len() implies ((((#[trigger] out[k]).node as int) < base)
        || (id0 <= out[k].node as int && ((out[k].node as int) < id2))) by {
        if k < out1.len() {
            assert(out[k] == out1[k]);
        } else {
            assert(out[k] == out2[k - out1.len()]);
        }
    }

    // Reused nodes keep their order.
    Seq::filter_distributes_over_add(out1, out2, pred);
    assert(kept_of(out, base) == kept_of(out1, base) + kept_of(out2, base));
    assert(nodes_of(kept_of(out, base)) =~= nodes_of(kept_of(out1, base)) + nodes_of(
        kept_of(out2, base),
    ));
    lemma_subseq_concat(
        nodes_of(kept_of(out1, base)),
        nodes_of(prevs1),
        nodes_of(kept_of(out2, base)),
        nodes_of(prevs2),
    );

    // A reused node matches the item at its output position.
    assert forall|k: int|
        0 <= k < out.len() && (((#[trigger] out[k]).node as int) < base) implies exists|j: int|
        0 <= j < prevs.len() && prevs[j].node == out[k].node && prevs[j].item.eq_spec(
            &nexts[k],
        ) by {
        if k < out1.len() {
            assert(out[k] == out1[k]);
            let j = choose|j: int|
                0 <= j < prevs1.len() && prevs1[j].node == out1[k].node
                    && prevs1[j].item.eq_spec(&nexts1[k]);
            assert(prevs[j] == prevs1[j]);
            assert(nexts[k] == nexts1[k]);
        } else {
            let k2 = k - out1.len();
            assert(out[k] == out2[k2]);
            let j = choose|j: int|
                0 <= j < prevs2.len() && prevs2[j].node == out2[k2].node
                    && prevs2[j].item.eq_spec(&nexts2[k2]);
            assert(prevs[prevs1.len() + j] == prevs2[j]);
            assert(nexts[k] == nexts2[k2]);
        }
    }

    // Destroyed nodes keep their order.
    lemma_subseq_concat(destroyed1, nodes_of(prevs1), destroyed2, nodes_of(prevs2));
    lemma_subseq_props(destroyed1, nodes_of(prevs1));
    lemma_subseq_props(destroyed2, nodes_of(prevs2));

    // Partition: every previous node is destroyed or reused, never both.
    assert forall|j: int| 0 <= j < prevs.len() implies destroyed.contains(
        (#[trigger] prevs[j]).node,
    ) || nodes_of(out).contains(prevs[j].node) by {
        let n = prevs[j].node;
        lemma_contains_concat(destroyed1, destroyed2, n);
        lemma_contains_concat(nodes_of(out1), nodes_of(out2), n);
        if j < prevs1.len() {
            assert(prevs[j] == prevs1[j]);
        } else {
            assert(prevs[j] == prevs2[j - prevs1.len()]);
        }
    }
    assert forall|j: int| 0 <= j < prevs.len() implies !(destroyed.contains(
        (#[trigger] prevs[j]).node,
    ) && nodes_of(out).contains(prevs[j].node)) by {
        let n = prevs[j].node;
        lemma_contains_concat(destroyed1, destroyed2, n);
        lemma_contains_concat(nodes_of(out1), nodes_of(out2), n);
        if destroyed.contains(n) && nodes_of(out).contains(n) {
            // Which span reused it, and which span destroyed it?
            if nodes_of(out1).contains(n) {
                let k = choose|k: int| 0 <= k < nodes_of(out1).len() && nodes_of(out1)[k] == n;
                assert(out1[k].node == n);
                if j < prevs1.len() {
                    // Reused in the first span, so not destroyed by it; the
                    // second span only destroys its own previous nodes.
                    if destroyed2.contains(n) {
                        assert(nodes_of(prevs2).contains(n));
                        let j2 = choose|j2: int|
                            0 <= j2 < nodes_of(prevs2).len() && nodes_of(prevs2)[j2] == n;
                        assert(prevs2[j2].node == n);
                        assert(prevs1[j].node == n);
                    }
                } else {
                    // A node of the second span's previous records reused by
                    // the first span would stand in both previous spans.
                    assert((out1[k].node as int) < base);
                    let j1 = choose|j1: int|
                        0 <= j1 < prevs1.len() && prevs1[j1].node == out1[k].node
                            && prevs1[j1].item.eq_spec(&nexts1[k]);
                    assert(prevs1[j1].node == n);
                    assert(prevs2[j - prevs1.len()].node == n);
                }
            } else {
                assert(nodes_of(out2).contains(n));
                let k = choose|k: int| 0 <= k < nodes_of(out2).len() && nodes_of(out2)[k] == n;
                assert(out2[k].node == n);
                if j < prevs1.len() {
                    assert((prevs1[j].node as int) < base);
                    assert((out2[k].node as int) < base);
                    let j2 = choose|j2: int|
                        0 <= j2 < prevs2.len() && prevs2[j2].node == out2[k].node
                            && prevs2[j2].item.eq_spec(&nexts2[k]);
                    assert(prevs2[j2].node == n);
                    assert(prevs1[j].node == n);
                } else {
                    if destroyed1.contains(n) {
                        assert(nodes_of(prevs1).contains(n));
                        let j1 = choose|j1: int|
                            0 <= j1 < nodes_of(prevs1).len() && nodes_of(prevs1)[j1] == n;
                        assert(prevs1[j1].node == n);
                        assert(prevs2[j - prevs1.len()].node == n);
                    }
                }
            }
        }
    }

    // Counts.
    assert(kept_of(out, base).len() == kept_of(out1, base).len() + kept_of(out2, base).len());

    // No node stands in the output twice.
    assert forall|p: int, q: int|
        0 <= p < q < nodes_of(out).len() implies nodes_of(out)[p] != nodes_of(out)[q] by {
        if p < out1.len() && q < out1.len() {
            assert(nodes_of(out)[p] == nodes_of(out1)[p]);
            assert(nodes_of(out)[q] == nodes_of(out1)[q]);
        } else if p >= out1.len() && q >= out1.len() {
            assert(nodes_of(out)[p] == nodes_of(out2)[p - out1.len()]);
            assert(nodes_of(out)[q] == nodes_of(out2)[q - out1.len()]);
        } else {
            let k1 = p;
            let k2 = q - out1.len();
            assert(nodes_of(out)[p] == out1[k1].node);
            assert(nodes_of(out)[q] == out2[k2].node);
            if out1[k1].node == out2[k2].node {
                let n = out1[k1].node;
                if (n as int) < base {
                    let j1 = choose|j1: int|
                        0 <= j1 < prevs1.len() && prevs1[j1].node == out1[k1].node
                            && prevs1[j1].item.eq_spec(&nexts1[k1]);
                    let j2 = choose|j2: int|
                        0 <= j2 < prevs2.len() && prevs2[j2].node == out2[k2].node
                            && prevs2[j2].item.eq_spec(&nexts2[k2]);
                    assert(prevs1[j1].node == prevs2[j2].node);
                } else {
                    // One span's fresh identifiers stop where the other's
                    // begin.
                }
            }
        }
    }
}

/// A span with no surviving match: every previous node is destroyed and
/// nothing is built.
proof fn lemma_built_destroy_only<T: ItemEq>(
    prevs: Seq<ListItem<T>>,
    dd: Seq<u64>,
    base: int,
    id0: int,
)
    requires
        dd == nodes_of(prevs),
        base <= id0,
    ensures
        built(prevs, Seq::<T>::empty(), Seq::<ListItem<T>>::empty(), Seq::<ListItem<T>>::empty(), dd, base, id0, id0),
{
    reveal(built);
    let out = Seq::<ListItem<T>>::empty();
    assert(items_of(out) =~= Seq::<T>::empty());
    assert(nodes_of(out) =~= Seq::<u64>::empty());
    assert(kept_of(out, base) =~= out) by {
        lemma_filter_all(out, |li: ListItem<T>| (li.node as int) < base);
    }
    lemma_subseq_refl(dd);
    assert(is_subseq(nodes_of(kept_of(out, base)), nodes_of(prevs)));
    assert forall|j: int| 0 <= j < prevs.len() implies dd.contains(
        (#[trigger] prevs[j]).node,
    ) by {
        assert(dd[j] == prevs[j].node);
    }
    assert(forall|n: u64| !nodes_of(out).contains(n));
}

/// A span with no previous records: every item gets a freshly created node.
proof fn lemma_built_create_only<T: ItemEq>(
    nexts: Seq<T>,
    out: Seq<ListItem<T>>,
    created: Seq<ListItem<T>>,
    base: int,
    id0: int,
    id1: int,
)
    requires
        out.len() == nexts.len(),
        created == out,
        forall|k: int| 0 <= k < out.len() ==> (#[trigger] out[k]).node as int == id0 + k,
        items_of(out) == nexts,
        id1 == id0 + out.len(),
        base <= id0,
    ensures
        built(Seq::<ListItem<T>>::empty(), nexts, out, created, Seq::<u64>::empty(), base, id0, id1),
{
    reveal(built);
    let prevs = Seq::<ListItem<T>>::empty();
    let destroyed = Seq::<u64>::empty();
    assert(nodes_of(prevs) =~= Seq::<u64>::empty());
    assert forall|k: int| 0 <= k < created.len() implies out.contains(#[trigger] created[k]) by {
        assert(out[k] == created[k]);
    }
    assert(kept_of(out, base) =~= Seq::<ListItem<T>>::empty()) by {
        lemma_filter_none(out, |li: ListItem<T>| (li.node as int) < base);
    }
    assert(nodes_of(kept_of(out, base)) =~= Seq::<u64>::empty());
    assert(is_subseq(nodes_of(kept_of(out, base)), nodes_of(prevs)));
    assert(is_subseq(destroyed, nodes_of(prevs)));
    assert forall|p: int, q: int|
        0 <= p < q < nodes_of(out).len() implies nodes_of(out)[p] != nodes_of(out)[q] by {
        assert(nodes_of(out)[p] == out[p].node);
        assert(nodes_of(out)[q] == out[q].node);
    }
}

/// A fully matched span: every previous record is carried forward under its
/// node, with the item value updated to the fresh one.
proof fn lemma_built_carry<T: ItemEq>(
    prevs: Seq<ListItem<T>>,
    nexts: Seq<T>,
    out: Seq<ListItem<T>>,
    base: int,
    id0: int,
)
    requires
        out.len() == prevs.len(),
        out.len() == nexts.len(),
        forall|t: int|
            0 <= t < out.len() ==> (#[trigger] out[t]).node == prevs[t].node && out[t].item
                == nexts[t],
        forall|t: int| 0 <= t < prevs.len() ==> (#[trigger] prevs[t]).item.eq_spec(&nexts[t]),
        forall|t: int| 0 <= t < prevs.len() ==> ((#[trigger] prevs[t]).node as int) < base,
        nodes_of(prevs).no_duplicates(),
        base <= id0,
    ensures
        built(prevs, nexts, out, Seq::<ListItem<T>>::empty(), Seq::<u64>::empty(), base, id0, id0),
{
    reveal(built);
    let destroyed = Seq::<u64>::empty();
    assert(items_of(out) =~= nexts);
    assert(nodes_of(out) =~= nodes_of(prevs));
    assert(kept_of(out, base) =~= out) by {
        lemma_filter_all(out, |li: ListItem<T>| (li.node as int) < base);
    }
    assert(nodes_of(kept_of(out, base)) =~= nodes_of(prevs));
    lemma_subseq_refl(nodes_of(prevs));
    assert(is_subseq(destroyed, nodes_of(prevs)));
    assert forall|k: int|
        0 <= k < out.len() && (((#[trigger] out[k]).node as int) < base) implies exists|j: int|
        0 <= j < prevs.len() && prevs[j].node == out[k].node && prevs[j].item.eq_spec(
            &nexts[k],
        ) by {
        assert(prevs[k].node == out[k].node && prevs[k].item.eq_spec(&nexts[k]));
    }
    assert forall|j: int| 0 <= j < prevs.len() implies nodes_of(out).contains(
        (#[trigger] prevs[j]).node,
    ) by {
        assert(nodes_of(out)[j] == prevs[j].node);
    }
}

/// Appends a copy of every element of `src` to `dst`.
fn append_copy<A: Copy>(dst: Vec<A>, src: &Vec<A>) -> (r: Vec<A>)
    ensures
        r@ == dst@ + src@,
{
    let ghost base = dst@;
    let mut r = dst;
    let n = src.len();
    let mut i: usize = 0;
    while i < n
        invariant
            n == src@.len(),
            i <= n,
            r@ == base + src@.subrange(0, i as int),
        decreases n - i,
    {
        r.push(src[i]);
        proof {
            assert(base + src@.subrange(0, (i + 1) as int) =~= (base + src@.subrange(
                0,
                i as int,
            )).push(src@[i as int]));
        }
        i = i + 1;
    }
    proof {
        assert(src@.subrange(0, n as int) =~= src@);
    }
    r
}

/// The node identifiers of the records `prev[a..b)`, in order.
fn collect_nodes<T: ItemEq + Copy>(prev: &Vec<ListItem<T>>, a: usize, b: usize) -> (dd: Vec<u64>)
    requires
        a <= b && b <= prev@.len(),
    ensures
        dd@ == nodes_of(prev@.subrange(a as int, b as int)),
{
    let mut dd: Vec<u64> = Vec::new();
    let mut i: usize = a;
    while i < b
        invariant
            a <= i <= b <= prev@.len(),
            dd@ == nodes_of(prev@.subrange(a as int, i as int)),
        decreases b - i,
    {
        dd.push(prev[i].node);
        proof {
            assert(nodes_of(prev@.subrange(a as int, (i + 1) as int)) =~= nodes_of(
                prev@.subrange(a as int, i as int),
            ).push(prev@[i as int].node));
        }
        i = i + 1;
    }
    dd
}

/// Fresh records for the items `next[c..d)`: consecutive node identifiers
/// starting at `id0`, one per item, in order. Returns the records twice: once
/// as the output span and once as the created set.
fn create_all<T: ItemEq + Copy>(next: &Vec<T>, c: usize, d: usize, id0: u64) -> (r: (
    Vec<ListItem<T>>,
    Vec<ListItem<T>>,
))
    requires
        c <= d && d <= next@.len(),
        id0 + (d - c) <= u64::MAX,
    ensures
        r.0@ == r.1@,
        r.0@.len() == d - c,
        forall|k: int|
            0 <= k < r.0@.len() ==> (#[trigger] r.0@[k]) == (ListItem {
                node: (id0 + k) as u64,
                item: next@[c + k],
            }),
{
    let mut out: Vec<ListItem<T>> = Vec::new();
    let mut created: Vec<ListItem<T>> = Vec::new();
    let mut i: usize = c;
    while i < d
        invariant
            c <= i <= d <= next@.len(),
            id0 + (d - c) <= u64::MAX,
            out@ == created@,
            out@.len() == i - c,
            forall|k: int|
                0 <= k < out@.len() ==> (#[trigger] out@[k]) == (ListItem {
                    node: (id0 + k) as u64,
                    item: next@[c + k],
                }),
        decreases d - i,
    {
        let node: u64 = id0 + (i - c) as u64;
        let rec = ListItem { node, item: next[i] };
        out.push(rec);
        created.push(rec);
        i = i + 1;
    }
    (out, created)
}

/// The records of a matched run: each previous node carried forward with the
/// aligned fresh item value.
fn carry_run<T: ItemEq + Copy>(
    prev: &Vec<ListItem<T>>,
    ps: usize,
    next: &Vec<T>,
    ns: usize,
    len: usize,
) -> (mid: Vec<ListItem<T>>)
    requires
        ps + len <= prev@.len(),
        ns + len <= next@.len(),
    ensures
        mid@.len() == len,
        forall|t: int|
            0 <= t < len ==> (#[trigger] mid@[t]) == (ListItem {
                node: prev@[ps + t].node,
                item: next@[ns + t],
            }),
{
    let pn = prev.len();
    let nn = next.len();
    let mut mid: Vec<ListItem<T>> = Vec::new();
    let mut t: usize = 0;
    while t < len
        invariant
            pn == prev@.len(),
            nn == next@.len(),
            ps + len <= pn,
            ns + len <= nn,
            t <= len,
            mid@.len() == t,
            forall|u: int|
                0 <= u < mid@.len() ==> (#[trigger] mid@[u]) == (ListItem {
                    node: prev@[ps + u].node,
                    item: next@[ns + u],
                }),
        decreases len - t,
    {
        mid.push(ListItem { node: prev[ps + t].node, item: next[ns + t] });
        t = t + 1;
    }
    mid
}

/// A span with no match at all: destroying every previous record and then
/// creating a node per item reconciles the whole span.
proof fn lemma_rebuild_all<T: ItemEq>(
    prevs: Seq<ListItem<T>>,
    nexts: Seq<T>,
    out: Seq<ListItem<T>>,
    created: Seq<ListItem<T>>,
    dd: Seq<u64>,
    base: int,
    id0: int,
    id1: int,
)
    requires
        dd == nodes_of(prevs),
        out.len() == nexts.len(),
        created == out,
        forall|k: int| 0 <= k < out.len() ==> (#[trigger] out[k]).node as int == id0 + k,
        items_of(out) == nexts,
        id1 == id0 + out.len(),
        base <= id0,
        forall|j: int| 0 <= j < prevs.len() ==> ((#[trigger] prevs[j]).node as int) < base,
        nodes_of(prevs).no_duplicates(),
    ensures
        built(prevs, nexts, out, created, dd, base, id0, id1),
{
    lemma_built_destroy_only(prevs, dd, base, id0);
    lemma_built_create_only(nexts, out, created, base, id0, id1);
    assert(prevs + Seq::<ListItem<T>>::empty() =~= prevs);
    assert(nodes_of(prevs + Seq::<ListItem<T>>::empty()) =~= nodes_of(prevs));
    lemma_built_concat(
        prevs,
        Seq::<T>::empty(),
        Seq::<ListItem<T>>::empty(),
        Seq::<ListItem<T>>::empty(),
        dd,
        Seq::<ListItem<T>>::empty(),
        nexts,
        out,
        created,
        Seq::<u64>::empty(),
        base,
        id0,
        id0,
        id1,
    );
    assert(Seq::<T>::empty() + nexts =~= nexts);
    assert(Seq::<ListItem<T>>::empty() + out =~= out);
    assert(Seq::<ListItem<T>>::empty() + created =~= created);
    assert(dd + Seq::<u64>::empty() =~= dd);
}

/// The margin before a matched run, the run itself, and the margin after it
/// reconcile the whole span when laid end to end.
#[verifier::rlimit(40)]
proof fn lemma_stitch<T: ItemEq>(
    prev: Seq<ListItem<T>>,
    a: int,
    ps: int,
    pe: int,
    b: int,
    next: Seq<T>,
    c: int,
    ns: int,
    ne: int,
    d: int,
    po: Seq<ListItem<T>>,
    pc: Seq<ListItem<T>>,
    pd: Seq<u64>,
    mo: Seq<ListItem<T>>,
    so: Seq<ListItem<T>>,
    sc: Seq<ListItem<T>>,
    sd: Seq<u64>,
    base: int,
    id0: int,
    idm: int,
    id1: int,
)
    requires
        0 <= a <= ps <= pe <= b <= prev.len(),
        0 <= c <= ns <= ne <= d <= next.len(),
        built(prev.subrange(a, ps), next.subrange(c, ns), po, pc, pd, base, id0, idm),
        built(
            prev.subrange(ps, pe),
            next.subrange(ns, ne),
            mo,
            Seq::<ListItem<T>>::empty(),
            Seq::<u64>::empty(),
            base,
            idm,
            idm,
        ),
        built(prev.subrange(pe, b), next.subrange(ne, d), so, sc, sd, base, idm, id1),
        nodes_of(prev.subrange(a, b)).no_duplicates(),
        forall|j: int| a <= j < b ==> ((#[trigger] prev[j]).node as int) < base,
    ensures
        built(
            prev.subrange(a, b),
            next.subrange(c, d),
            (po + mo) + so,
            pc + sc,
            pd + sd,
            base,
            id0,
            id1,
        ),
{
    let prevs = prev.subrange(a, b);
    let nexts = next.subrange(c, d);
    let prevs_pre = prev.subrange(a, ps);
    let nexts_pre = next.subrange(c, ns);
    let prevs_run = prev.subrange(ps, pe);
    let nexts_run = next.subrange(ns, ne);
    let prevs_suf = prev.subrange(pe, b);
    let nexts_suf = next.subrange(ne, d);

    assert(prevs_pre + prevs_run =~= prev.subrange(a, pe));
    assert(nexts_pre + nexts_run =~= next.subrange(c, ne));
    assert(nodes_of(prevs) =~= nodes_of(prev).subrange(a, b));
    assert(nodes_of(prevs_pre + prevs_run) =~= nodes_of(prevs).subrange(0, pe - a));
    lemma_nodup_subrange(nodes_of(prevs), 0, pe - a);
    assert forall|j: int|
        0 <= j < prevs_pre.len() implies ((#[trigger] prevs_pre[j]).node as int) < base by {
        assert(prevs_pre[j] == prev[a + j]);
    }
    assert forall|j: int|
        0 <= j < prevs_run.len() implies ((#[trigger] prevs_run[j]).node as int) < base by {
        assert(prevs_run[j] == prev[ps + j]);
    }
    assert forall|j: int|
        0 <= j < prevs_suf.len() implies ((#[trigger] prevs_suf[j]).node as int) < base by {
        assert(prevs_suf[j] == prev[pe + j]);
    }
    lemma_built_concat(
        prevs_pre,
        nexts_pre,
        po,
        pc,
        pd,
        prevs_run,
        nexts_run,
        mo,
        Seq::<ListItem<T>>::empty(),
        Seq::<u64>::empty(),
        base,
        id0,
        idm,
        idm,
    );
    assert(pc + Seq::<ListItem<T>>::empty() =~= pc);
    assert(pd + Seq::<u64>::empty() =~= pd);
    assert(built(
        prev.subrange(a, pe),
        next.subrange(c, ne),
        po + mo,
        pc,
        pd,
        base,
        id0,
        idm,
    ));
    assert(prev.subrange(a, pe) + prevs_suf =~= prevs);
    assert(next.subrange(c, ne) + nexts_suf =~= nexts);
    assert(nodes_of(prev.subrange(a, pe) + prevs_suf) =~= nodes_of(prevs));
    lemma_built_concat(
        prev.subrange(a, pe),
        next.subrange(c, ne),
        po + mo,
        pc,
        pd,
        prevs_suf,
        nexts_suf,
        so,
        sc,
        sd,
        base,
        id0,
        idm,
        id1,
    );
}

/// Maximality composes around a non-empty matched run: a pair that straddles
/// the run is blocked by the run's own records, and a pair inside one margin
/// is blocked by that margin's reuse correspondence.
#[verifier::rlimit(40)]
proof fn lemma_maximal_stitch<T: ItemEq>(
    prev: Seq<ListItem<T>>,
    a: int,
    ps: int,
    pe: int,
    b: int,
    next: Seq<T>,
    c: int,
    ns: int,
    ne: int,
    d: int,
    po: Seq<ListItem<T>>,
    mo: Seq<ListItem<T>>,
    so: Seq<ListItem<T>>,
    pd: Seq<u64>,
    sd: Seq<u64>,
    base: int,
)
    requires
        0 <= a <= ps <= pe <= b <= prev.len(),
        0 <= c <= ns <= ne <= d <= next.len(),
        pe - ps == ne - ns,
        pe > ps,
        po.len() == ns - c,
        so.len() == d - ne,
        mo.len() == pe - ps,
        forall|t: int| 0 <= t < mo.len() ==> (#[trigger] mo[t]).node == prev[ps + t].node,
        forall|j: int| a <= j < b ==> ((#[trigger] prev[j]).node as int) < base,
        nodes_of(prev.subrange(a, b)).no_duplicates(),
        maximal_matching(prev.subrange(a, ps), next.subrange(c, ns), po, pd, base),
        maximal_matching(prev.subrange(pe, b), next.subrange(ne, d), so, sd, base),
        forall|x: u64| pd.contains(x) ==> nodes_of(prev.subrange(a, ps)).contains(x),
        forall|x: u64| sd.contains(x) ==> nodes_of(prev.subrange(pe, b)).contains(x),
    ensures
        maximal_matching(
            prev.subrange(a, b),
            next.subrange(c, d),
            (po + mo) + so,
            pd + sd,
            base,
        ),
{
    let prevs = prev.subrange(a, b);
    let nexts = next.subrange(c, d);
    let prevs_pre = prev.subrange(a, ps);
    let nexts_pre = next.subrange(c, ns);
    let prevs_suf = prev.subrange(pe, b);
    let nexts_suf = next.subrange(ne, d);
    let out = (po + mo) + so;
    let destroyed = pd + sd;
    let p_len = ns - c;
    let r_len = pe - ps;

    assert forall|j: int, k: int|
        0 <= j < prevs.len() && 0 <= k < out.len() && destroyed.contains(
            (#[trigger] prevs[j]).node,
        ) && (((#[trigger] out[k]).node as int) >= base) && prevs[j].item.eq_spec(
            &nexts[k],
        ) implies blocked(prevs, out, base, j, k) by {
        let n = prevs[j].node;
        lemma_contains_concat(pd, sd, n);

        // The fresh node at position `k` cannot lie in the run: every run
        // record carries a previous node, which stays below `base`.
        assert(out.len() == d - c);
        if p_len <= k < p_len + r_len {
            assert(out[k] == mo[k - p_len]);
            assert(out[k].node == prev[ps + (k - p_len)].node);
            assert(false);
        }

        if pd.contains(n) {
            // The destroyed record stands in the margin before the run.
            assert(nodes_of(prevs_pre).contains(n));
            let jp = choose|jp: int|
                0 <= jp < nodes_of(prevs_pre).len() && nodes_of(prevs_pre)[jp] == n;
            assert(prevs_pre[jp].node == n);
            assert(prevs[jp] == prevs_pre[jp]);
            assert(nodes_of(prevs)[j] == n);
            assert(nodes_of(prevs)[jp] == n);
            assert(j == jp);
            if k < p_len {
                // Pair inside the margin: its own maximality blocks it.
                assert(out[k] == po[k]);
                assert(prevs_pre[j] == prevs[j]);
                assert(nexts_pre[k] == nexts[k]);
                assert(blocked(prevs_pre, po, base, j, k));
                let (k2, j2) = choose|k2: int, j2: int|
                    0 <= k2 < po.len() && 0 <= j2 < prevs_pre.len() && prevs_pre[j2].node
                        == po[k2].node && ((po[k2].node as int) < base) && ((k2 < k && j2 > j) || (
                    k2 > k && j2 < j));
                assert(out[k2] == po[k2]);
                assert(prevs[j2] == prevs_pre[j2]);
                assert(0 <= k2 < out.len() && 0 <= j2 < prevs.len() && prevs[j2].node
                    == out[k2].node && ((out[k2].node as int) < base) && ((k2 < k && j2 > j) || (
                k2 > k && j2 < j)));
            } else {
                // Pair straddling the run: the run's first record crosses it.
                let k2 = p_len;
                let j2 = ps - a;
                assert(out[k2] == mo[0]);
                assert(mo[0].node == prev[ps].node);
                assert(prevs[j2] == prev[ps]);
                assert(k >= p_len + r_len);
                assert(0 <= k2 < out.len() && 0 <= j2 < prevs.len() && prevs[j2].node
                    == out[k2].node && ((out[k2].node as int) < base) && (k2 < k && j2 > j));
            }
        } else {
            // The destroyed record stands in the margin after the run.
            assert(sd.contains(n));
            assert(nodes_of(prevs_suf).contains(n));
            let js = choose|js: int|
                0 <= js < nodes_of(prevs_suf).len() && nodes_of(prevs_suf)[js] == n;
            assert(prevs_suf[js].node == n);
            assert(prevs[js + (pe - a)] == prevs_suf[js]);
            assert(nodes_of(prevs)[j] == n);
            assert(nodes_of(prevs)[js + (pe - a)] == n);
            assert(j == js + (pe - a));
            if k >= p_len + r_len {
                // Pair inside the margin: its own maximality blocks it.
                let k_s = k - (p_len + r_len);
                let j_s = j - (pe - a);
                assert(out[k] == so[k_s]);
                assert(prevs_suf[j_s] == prevs[j]);
                assert(nexts_suf[k_s] == nexts[k]);
                assert(blocked(prevs_suf, so, base, j_s, k_s));
                let (k2, j2) = choose|k2: int, j2: int|
                    0 <= k2 < so.len() && 0 <= j2 < prevs_suf.len() && prevs_suf[j2].node
                        == so[k2].node && ((so[k2].node as int) < base) && ((k2 < k_s && j2 > j_s)
                        || (k2 > k_s && j2 < j_s));
                let k2w = k2 + p_len + r_len;
                let j2w = j2 + (pe - a);
                assert(out[k2w] == so[k2]);
                assert(prevs[j2w] == prevs_suf[j2]);
                assert(0 <= k2w < out.len() && 0 <= j2w < prevs.len() && prevs[j2w].node
                    == out[k2w].node && ((out[k2w].node as int) < base) && ((k2w < k && j2w > j)
                    || (k2w > k && j2w < j)));
            } else {
                // Pair straddling the run: the run's first record crosses it.
                let k2 = p_len;
                let j2 = ps - a;
                assert(out[k2] == mo[0]);
                assert(mo[0].node == prev[ps].node);
                assert(prevs[j2] == prev[ps]);
                assert(k < p_len);
                assert(0 <= k2 < out.len() && 0 <= j2 < prevs.len() && prevs[j2].node
                    == out[k2].node && ((out[k2].node as int) < base) && (k2 > k && j2 < j));
            }
        }
    }
}

/// One unmatched margin beside a matched run: where both sides are
/// non-empty the margin is reconciled recursively (a nested matched run may
/// hide inside it), where only the previous side is non-empty its records
/// are destroyed, and where only the next side is non-empty fresh records
/// are created.
fn margin_step<T: ItemEq + Copy>(
    prev: &Vec<ListItem<T>>,
    a: usize,
    b: usize,
    next: &Vec<T>,
    c: usize,
    d: usize,
    id0: u64,
    Ghost(base): Ghost<int>,
) -> (r: (Vec<ListItem<T>>, Vec<ListItem<T>>, Vec<u64>, u64))
    requires
        a <= b && b <= prev@.len(),
        c <= d && d <= next@.len(),
        base <= id0 as int,
        forall|j: int| a <= j < b ==> ((#[trigger] prev@[j]).node as int) < base,
        id0 + (d - c) <= u64::MAX,
        nodes_of(prev@.subrange(a as int, b as int)).no_duplicates(),
    ensures
        built(
            prev@.subrange(a as int, b as int),
            next@.subrange(c as int, d as int),
            r.0@,
            r.1@,
            r.2@,
            base,
            id0 as int,
            r.3 as int,
        ),
        id0 <= r.3,
        r.3 as int <= id0 as int + (d - c),
        r.0@.len() == d - c,
        r.1@.len() as int == r.3 as int - id0 as int,
        r.2@.len() + (d - c) == (b - a) + r.1@.len(),
        maximal_matching(
            prev@.subrange(a as int, b as int),
            next@.subrange(c as int, d as int),
            r.0@,
            r.2@,
            base,
        ),
        forall|x: u64|
            r.2@.contains(x) ==> nodes_of(prev@.subrange(a as int, b as int)).contains(x),
    decreases b - a, 1int,
{
    let ghost prevs = prev@.subrange(a as int, b as int);
    let ghost nexts = next@.subrange(c as int, d as int);
    if a < b && c < d {
        let rec = build_recursive(prev, a, b, next, c, d, id0, Ghost(base));
        rec
    } else if a < b {
        let dd = collect_nodes(prev, a, b);
        proof {
            assert(nexts =~= Seq::<T>::empty());
            lemma_built_destroy_only(prevs, dd@, base, id0 as int);
        }
        (Vec::new(), Vec::new(), dd, id0)
    } else if c < d {
        let (o, cr) = create_all(next, c, d, id0);
        let id1: u64 = id0 + (d - c) as u64;
        proof {
            assert(prevs =~= Seq::<ListItem<T>>::empty());
            assert(items_of(o@) =~= nexts);
            assert(forall|k: int|
                0 <= k < o@.len() ==> (#[trigger] o@[k]).node as int == id0 as int + k);
            lemma_built_create_only(nexts, o@, cr@, base, id0 as int, id1 as int);
        }
        (o, cr, Vec::new(), id1)
    } else {
        proof {
            assert(prevs =~= Seq::<ListItem<T>>::empty());
            assert(nexts =~= Seq::<T>::empty());
            assert(nodes_of(prevs) =~= Seq::<u64>::empty());
            lemma_built_destroy_only(prevs, Seq::<u64>::empty(), base, id0 as int);
        }
        (Vec::new(), Vec::new(), Vec::new(), id0)
    }
}

/// One recursive reconciliation step over the previous records `prev[a..b)`
/// and the fresh items `next[c..d)`.
///
/// The longest matched run splits both ranges; its records are carried
/// forward, and the unmatched margins on either side are handled by
/// [`margin_step`]. With no match at all, every previous record is destroyed
/// and every item gets a fresh node. Returns the new record span, the created
/// records, the destroyed nodes, and the advanced identifier counter.
#[verifier::rlimit(100)]
fn build_recursive<T: ItemEq + Copy>(
    prev: &Vec<ListItem<T>>,
    a: usize,
    b: usize,
    next: &Vec<T>,
    c: usize,
    d: usize,
    id0: u64,
    Ghost(base): Ghost<int>,
) -> (r: (Vec<ListItem<T>>, Vec<ListItem<T>>, Vec<u64>, u64))
    requires
        a <= b && b <= prev@.len(),
        c <= d && d <= next@.len(),
        base <= id0 as int,
        forall|j: int| a <= j < b ==> ((#[trigger] prev@[j]).node as int) < base,
        id0 + (d - c) <= u64::MAX,
        nodes_of(prev@.subrange(a as int, b as int)).no_duplicates(),
    ensures
        built(
            prev@.subrange(a as int, b as int),
            next@.subrange(c as int, d as int),
            r.0@,
            r.1@,
            r.2@,
            base,
            id0 as int,
            r.3 as int,
        ),
        id0 <= r.3,
        r.3 as int <= id0 as int + (d - c),
        r.0@.len() == d - c,
        r.1@.len() as int == r.3 as int - id0 as int,
        r.2@.len() + (d - c) == (b - a) + r.1@.len(),
        maximal_matching(
            prev@.subrange(a as int, b as int),
            next@.subrange(c as int, d as int),
            r.0@,
            r.2@,
            base,
        ),
        forall|x: u64|
            r.2@.contains(x) ==> nodes_of(prev@.subrange(a as int, b as int)).contains(x),
        (b - a == d - c && (forall|t: int|
            0 <= t < b - a ==> #[trigger] aligned_eq(
                items_of(prev@),
                next@,
                a as int,
                c as int,
                t,
            ))) ==> (nodes_of(r.0@) == nodes_of(prev@.subrange(a as int, b as int))
            && r.1@.len() == 0 && r.2@.len() == 0),
    decreases b - a, 0int,
{
    let ghost xs = items_of(prev@);
    let ghost ys = next@;
    let ghost prevs = prev@.subrange(a as int, b as int);
    let ghost nexts = next@.subrange(c as int, d as int);
    let ghost idempotent = b - a == d - c && (forall|t: int|
        0 <= t < b - a ==> #[trigger] aligned_eq(xs, ys, a as int, c as int, t));

    let (ps, ns, len) = lcs(prev, a, b, next, c, d);

    proof {
        if idempotent && b > a {
            lemma_pointwise_run_len(xs, ys, a as int, c as int, b as int, d as int);
            assert(crate::lcs::run_len(xs, ys, a as int, c as int, b as int, d as int) == b - a);
            assert(len >= b - a);
            lemma_run_len_props(xs, ys, ps as int, ns as int, b as int, d as int);
            assert(len == b - a && ps == a && ns == c);
        }
    }

    if len == 0 {
        // Nothing in common: raze the old records, build the new items.
        let dd = collect_nodes(prev, a, b);
        let (out, created) = create_all(next, c, d, id0);
        let id1: u64 = id0 + (d - c) as u64;
        proof {
            assert(items_of(out@) =~= nexts);
            assert(forall|k: int|
                0 <= k < out@.len() ==> (#[trigger] out@[k]).node as int == id0 as int + k);
            lemma_rebuild_all(prevs, nexts, out@, created@, dd@, base, id0 as int, id1 as int);
            // With no matched run anywhere, no destroyed item can equal any
            // fresh item at all, so maximality holds vacuously.
            assert forall|j: int, k: int|
                0 <= j < prevs.len() && 0 <= k < out@.len() && dd@.contains(
                    (#[trigger] prevs[j]).node,
                ) && (((#[trigger] out@[k]).node as int) >= base) && prevs[j].item.eq_spec(
                    &nexts[k],
                ) implies blocked(prevs, out@, base, j, k) by {
                assert(prevs[j] == prev@[a + j]);
                assert(nexts[k] == next@[c + k]);
                assert(xs[a + j] == prev@[a + j].item);
                assert(crate::lcs::run_len(xs, ys, a + j, c + k, b as int, d as int) >= 1);
            }
            if idempotent {
                assert(b == a && d == c);
                assert(nodes_of(out@) =~= nodes_of(prevs));
            }
        }
        (out, created, dd, id1)
    } else {
        let pe = ps + len;
        let ne = ns + len;
        let ghost prevs_pre = prev@.subrange(a as int, ps as int);
        let ghost nexts_pre = next@.subrange(c as int, ns as int);
        let ghost prevs_run = prev@.subrange(ps as int, pe as int);
        let ghost nexts_run = next@.subrange(ns as int, ne as int);
        let ghost prevs_suf = prev@.subrange(pe as int, b as int);
        let ghost nexts_suf = next@.subrange(ne as int, d as int);

        proof {
            assert(nodes_of(prevs_pre) =~= nodes_of(prevs).subrange(0, ps - a));
            lemma_nodup_subrange(nodes_of(prevs), 0, ps - a);
            assert(nodes_of(prevs_run) =~= nodes_of(prevs).subrange(ps - a, pe - a));
            lemma_nodup_subrange(nodes_of(prevs), ps - a, pe - a);
            assert(nodes_of(prevs_suf) =~= nodes_of(prevs).subrange(pe - a, b - a));
            lemma_nodup_subrange(nodes_of(prevs), pe - a, b - a);
        }

        // The unmatched margin before the run.
        let (pre_out, pre_created, pre_destroyed, id_m) = margin_step(
            prev,
            a,
            ps,
            next,
            c,
            ns,
            id0,
            Ghost(base),
        );
        let ghost po = pre_out@;
        let ghost pc = pre_created@;
        let ghost pd = pre_destroyed@;

        // The matched run: carry each record forward under its node.
        let mid = carry_run(prev, ps, next, ns, len);
        let ghost mo = mid@;
        proof {
            lemma_run_len_props(xs, ys, ps as int, ns as int, b as int, d as int);
            assert forall|t: int|
                0 <= t < prevs_run.len() implies (#[trigger] prevs_run[t]).item.eq_spec(
                &nexts_run[t],
            ) by {
                assert(aligned_eq(xs, ys, ps as int, ns as int, t));
                assert(xs[ps + t] == prev@[ps + t].item);
                assert(prevs_run[t] == prev@[ps + t]);
                assert(nexts_run[t] == next@[ns + t]);
            }
            assert forall|t: int|
                0 <= t < prevs_run.len() implies ((#[trigger] prevs_run[t]).node as int)
                < base by {
                assert(prevs_run[t] == prev@[ps + t]);
            }
            assert(base <= id_m as int);
            lemma_built_carry(prevs_run, nexts_run, mo, base, id_m as int);
        }

        // The unmatched margin after the run. The counter has advanced by at
        // most the width of the margin already built.
        proof {
            assert(id_m as int + (d - ne) <= id0 as int + (d - c));
        }
        let (suf_out, suf_created, suf_destroyed, id1) = margin_step(
            prev,
            pe,
            b,
            next,
            ne,
            d,
            id_m,
            Ghost(base),
        );
        let ghost so = suf_out@;
        let ghost sc = suf_created@;
        let ghost sd = suf_destroyed@;

        // Stitch the three spans together.
        let out_a = append_copy(pre_out, &mid);
        let out = append_copy(out_a, &suf_out);
        let created = append_copy(pre_created, &suf_created);
        let destroyed = append_copy(pre_destroyed, &suf_destroyed);

        proof {
            lemma_stitch(
                prev@,
                a as int,
                ps as int,
                pe as int,
                b as int,
                next@,
                c as int,
                ns as int,
                ne as int,
                d as int,
                po,
                pc,
                pd,
                mo,
                so,
                sc,
                sd,
                base,
                id0 as int,
                id_m as int,
                id1 as int,
            );
            assert(out@ == (po + mo) + so);
            assert(built(prevs, nexts, out@, created@, destroyed@, base, id0 as int, id1 as int));

            assert forall|x: u64| destroyed@.contains(x) implies nodes_of(prevs).contains(
                x,
            ) by {
                lemma_contains_concat(pd, sd, x);
                if pd.contains(x) {
                    assert(nodes_of(prevs_pre).contains(x));
                    let i = choose|i: int|
                        0 <= i < nodes_of(prevs_pre).len() && nodes_of(prevs_pre)[i] == x;
                    assert(prevs_pre[i].node == x);
                    assert(prevs[i] == prevs_pre[i]);
                    assert(nodes_of(prevs)[i] == x);
                } else {
                    assert(nodes_of(prevs_suf).contains(x));
                    let i = choose|i: int|
                        0 <= i < nodes_of(prevs_suf).len() && nodes_of(prevs_suf)[i] == x;
                    assert(prevs_suf[i].node == x);
                    assert(prevs[i + (pe - a)] == prevs_suf[i]);
                    assert(nodes_of(prevs)[i + (pe - a)] == x);
                }
            }
            lemma_maximal_stitch(
                prev@,
                a as int,
                ps as int,
                pe as int,
                b as int,
                next@,
                c as int,
                ns as int,
                ne as int,
                d as int,
                po,
                mo,
                so,
                pd,
                sd,
                base,
            );
            assert(destroyed@ == pd + sd);

            if idempotent {
                // The whole range is one matched run: nothing is margin.
                assert(ps == a && ns == c && len == b - a);
                assert(pe == b && ne == d);
                assert(po.len() == 0 && so.len() == 0);
                assert(out@ =~= mo);
                assert(nodes_of(out@) =~= nodes_of(prevs));
                assert(created@.len() == 0);
                assert(destroyed@.len() == 0);
            }
        }
        (out, created, destroyed, id1)
    }
}

/// What one reconciliation pass of a list effect produced.
pub struct Reconciled<T> {
    /// The new retained record sequence: one record per fresh item, in item
    /// order; reused nodes carry their identifier forward.
    pub state: Vec<ListItem<T>>,
    /// The records whose nodes were freshly created, in creation order.
    pub created: Vec<ListItem<T>>,
    /// The previously retained nodes that were destroyed, in retained order.
    pub destroyed: Vec<u64>,
    /// The advanced node identifier counter.
    pub next_id: u64,
}

/// Reconciles the retained records `prev` against the fresh item sequence
/// `next`: nodes are reused whenever an equal item stands in the same
/// relative order as before, destroyed when no such item remains, and created
/// for genuinely new items. Fresh nodes take consecutive identifiers starting
/// at `next_id`.
///
/// When each retained item matches the fresh item at its own position, the
/// pass is structurally silent: nothing is created and nothing is destroyed.
pub fn reconcile<T: ItemEq + Copy>(prev: &Vec<ListItem<T>>, next: &Vec<T>, next_id: u64) -> (r:
    Reconciled<T>)
    requires
        nodes_of(prev@).no_duplicates(),
        forall|j: int| 0 <= j < prev@.len() ==> ((#[trigger] prev@[j]).node as int) < next_id as int,
        next_id + next@.len() <= u64::MAX,
    ensures
        built(
            prev@,
            next@,
            r.state@,
            r.created@,
            r.destroyed@,
            next_id as int,
            next_id as int,
            r.next_id as int,
        ),
        (prev@.len() == next@.len() && (forall|k: int|
            0 <= k < prev@.len() ==> (#[trigger] prev@[k]).item.eq_spec(&next@[k]))) ==> (nodes_of(
            r.state@,
        ) == nodes_of(prev@) && r.created@.len() == 0 && r.destroyed@.len() == 0),
        r.state@.len() == next@.len(),
        items_of(r.state@) == next@,
        nodes_of(r.state@).no_duplicates(),
        forall|j: int| 0 <= j < r.state@.len() ==> (#[trigger] r.state@[j]).node < r.next_id,
        next_id <= r.next_id,
        r.next_id as int <= next_id as int + next@.len(),
        r.created@.len() as int == r.next_id as int - next_id as int,
        r.destroyed@.len() + next@.len() == prev@.len() + r.created@.len(),
        maximal_matching(prev@, next@, r.state@, r.destroyed@, next_id as int),
{
    let pn = prev.len();
    let nn = next.len();
    proof {
        assert(prev@.subrange(0, pn as int) =~= prev@);
        assert(next@.subrange(0, nn as int) =~= next@);
        if prev@.len() == next@.len() && (forall|k: int|
            0 <= k < prev@.len() ==> (#[trigger] prev@[k]).item.eq_spec(&next@[k])) {
            assert forall|t: int| 0 <= t < pn implies #[trigger] aligned_eq(
                items_of(prev@),
                next@,
                0,
                0,
                t,
            ) by {
                assert(prev@[t].item.eq_spec(&next@[t]));
                assert(items_of(prev@)[0 + t] == prev@[t].item);
                assert(next@[0 + t] == next@[t]);
            }
        }
    }
    let (state, created, destroyed, id1) = build_recursive(
        prev,
        0,
        pn,
        next,
        0,
        nn,
        next_id,
        Ghost(next_id as int),
    );
    proof {
        assert forall|j: int| 0 <= j < state@.len() implies (#[trigger] state@[j]).node
            < id1 by {
            reveal(built);
        }
        assert(nodes_of(state@).no_duplicates() && items_of(state@) == next@) by {
            reveal(built);
        }
    }
    Reconciled { state, created, destroyed, next_id: id1 }
}

} // verus!
