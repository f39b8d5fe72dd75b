use vstd::prelude::*;

use crate::cond::Cond;
use crate::cond::CondAction;
use crate::cond::cond_update_rel;
use crate::foreach::ForEach;
use crate::foreach::ListAction;
use crate::foreach::ListUpdate;
use crate::foreach::list_update_rel;
use crate::items::ItemEq;
use crate::list::ListItem;
use crate::list::is_subseq;
use crate::list::items_of;
use crate::list::lemma_filter_all;
use crate::list::lemma_filter_none;
use crate::list::nodes_of;
use crate::list::lemma_subseq_props;
use crate::reconcile::blocked;
use crate::reconcile::built;
use crate::reconcile::kept_of;
use crate::switch::Switch;
use crate::switch::SwitchAction;
use crate::switch::no_case_matches;
use crate::switch::switch_update_rel;

verus! {

/// An unchanged boolean discriminant across two consecutive ticks leaves the
/// second tick structurally silent: the conditional effect keeps its subtree
/// untouched and its state unchanged.
pub proof fn cond_repeat_keeps(s0: Cond, v: bool, s1: Cond, a1: CondAction, s2: Cond, a2: CondAction)
    requires
        cond_update_rel(s0, Some(v), s1, a1),
        cond_update_rel(s1, Some(v), s2, a2),
    ensures
        a2 == CondAction::Keep,
        s2 == s1,
{
}

/// An unchanged switch discriminant across two consecutive ticks leaves the
/// second tick structurally silent: the switch effect keeps its subtree
/// untouched and its state unchanged.
pub proof fn switch_repeat_keeps<V: ItemEq>(
    s0: Switch<V>,
    v: V,
    s1: Switch<V>,
    a1: SwitchAction,
    s2: Switch<V>,
    a2: SwitchAction,
)
    requires
        switch_update_rel(s0, Some(v), s1, a1),
        switch_update_rel(s1, Some(v), s2, a2),
    ensures
        a2 == SwitchAction::Keep,
        s2.cases == s1.cases,
        s2.has_fallback == s1.has_fallback,
        s2.switch_index == s1.switch_index,
        s2.active == s1.active,
        s2.disposed == s1.disposed,
{
}

/// An unchanged item sequence across two consecutive ticks creates and
/// destroys nothing on the second tick: at most the child order is restated.
/// The hypothesis that each item matches itself holds of every reflexive
/// equality, the item type's own equality included.
pub proof fn list_repeat_reorders_only<T: ItemEq>(
    s0: ForEach<T>,
    items: Vec<T>,
    s1: ForEach<T>,
    u1: ListUpdate<T>,
    id0: int,
    s2: ForEach<T>,
    u2: ListUpdate<T>,
    id1: int,
)
    requires
        list_update_rel(s0, Some(items), s1, u1, id0),
        list_update_rel(s1, Some(items), s2, u2, id1),
        forall|k: int| 0 <= k < items@.len() ==> (#[trigger] items@[k]).eq_spec(&items@[k]),
    ensures
        u2.created@.len() == 0,
        u2.destroyed@.len() == 0,
        u2.children@ == nodes_of(s1.state@),
        nodes_of(s2.state@) == nodes_of(s1.state@),
{
    assert(s1.state@.len() == items@.len() && items_of(s1.state@) == items@) by {
        reveal(built);
    }
    assert forall|k: int|
        0 <= k < s1.state@.len() implies (#[trigger] s1.state@[k]).item.eq_spec(&items@[k]) by {
        assert(items_of(s1.state@)[k] == s1.state@[k].item);
        assert(s1.state@[k].item == items@[k]);
    }
}

/// A freshly activated conditional effect materializes content on its first
/// successful evaluation, whatever the computed boolean.
pub proof fn cond_first_run_builds(s0: Cond, v: bool, s1: Cond, a1: CondAction)
    requires
        cond_update_rel(s0, Some(v), s1, a1),
        !s0.active,
    ensures
        a1 == (CondAction::Build { positive: v }),
        s1.active,
{
}

/// A freshly activated switch effect materializes content on its first
/// successful evaluation, whatever the computed value.
pub proof fn switch_first_run_builds<V: ItemEq>(s0: Switch<V>, v: V, s1: Switch<V>, a1: SwitchAction)
    requires
        switch_update_rel(s0, Some(v), s1, a1),
        !s0.active,
    ensures
        a1 != SwitchAction::Keep,
        s1.active,
{
}

/// A freshly activated list effect materializes content on its first
/// successful evaluation: the fallback subtree when the item sequence is
/// already empty, the item subtrees otherwise.
pub proof fn list_first_run_builds<T: ItemEq>(
    s0: ForEach<T>,
    items: Vec<T>,
    s1: ForEach<T>,
    u1: ListUpdate<T>,
    id0: int,
)
    requires
        list_update_rel(s0, Some(items), s1, u1, id0),
        !s0.active,
        s0.state@.len() == 0,
    ensures
        u1.action != ListAction::Keep,
        items@.len() == 0 ==> u1.action == ListAction::BuildFallback,
        items@.len() > 0 ==> u1.action == (ListAction::Replace { clear_first: true }),
        s1.active,
{
}

/// With no equality at all between the previous items and the next ones, the
/// reconciliation is a total replacement: every previous node is destroyed
/// and every next item gets a freshly created node.
pub proof fn list_total_replacement<T: ItemEq>(
    s0: ForEach<T>,
    items: Vec<T>,
    s1: ForEach<T>,
    u1: ListUpdate<T>,
    id0: int,
)
    requires
        list_update_rel(s0, Some(items), s1, u1, id0),
        forall|j: int, k: int|
            0 <= j < s0.state@.len() && 0 <= k < items@.len() ==> !(#[trigger] s0.state@[j].item.eq_spec(
                &items@[k],
            )),
        forall|j: int| 0 <= j < s0.state@.len() ==> ((#[trigger] s0.state@[j]).node as int) < id0,
    ensures
        u1.created@.len() == items@.len(),
        u1.destroyed@.len() == s0.state@.len(),
        forall|j: int|
            0 <= j < s0.state@.len() ==> u1.destroyed@.contains((#[trigger] s0.state@[j]).node),
        forall|k: int| 0 <= k < s1.state@.len() ==> ((#[trigger] s1.state@[k]).node as int) >= id0,
{
    reveal(built);
    let prevs = s0.state@;
    let nexts = items@;
    let out = s1.state@;
    // No node can have been reused: a reused node's previous item would
    // match the item at its new position.
    assert forall|k: int|
        0 <= k < out.len() implies ((#[trigger] out[k]).node as int) >= id0 by {
        if (out[k].node as int) < id0 {
            let j = choose|j: int|
                0 <= j < prevs.len() && prevs[j].node == out[k].node && prevs[j].item.eq_spec(
                    &nexts[k],
                );
            assert(!prevs[j].item.eq_spec(&nexts[k]));
        }
    }
    assert(kept_of(out, id0) =~= Seq::<ListItem<T>>::empty()) by {
        lemma_filter_none(out, |li: ListItem<T>| (li.node as int) < id0);
    }
    assert(u1.created@.len() == out.len());
    assert forall|j: int| 0 <= j < prevs.len() implies u1.destroyed@.contains(
        (#[trigger] prevs[j]).node,
    ) by {
        if nodes_of(out).contains(prevs[j].node) {
            let k = choose|k: int| 0 <= k < nodes_of(out).len() && nodes_of(out)[k] == prevs[j].node;
            assert(out[k].node == prevs[j].node);
        }
    }
}

/// Matching a three-item list against its outer two items reuses both outer
/// nodes and destroys exactly the middle one, creating nothing: the
/// reconciler finds the common subsequence across the gap.
#[verifier::rlimit(30)]
pub proof fn list_retains_common_subsequence<T: ItemEq>(
    s0: ForEach<T>,
    items: Vec<T>,
    s1: ForEach<T>,
    u1: ListUpdate<T>,
    id0: int,
)
    requires
        list_update_rel(s0, Some(items), s1, u1, id0),
        nodes_of(s0.state@).no_duplicates(),
        forall|i: int| 0 <= i < s0.state@.len() ==> ((#[trigger] s0.state@[i]).node as int) < id0,
        s0.state@.len() == 3,
        items@.len() == 2,
        s0.state@[0].item.eq_spec(&items@[0]),
        s0.state@[2].item.eq_spec(&items@[1]),
        !s0.state@[0].item.eq_spec(&items@[1]),
        !s0.state@[1].item.eq_spec(&items@[0]),
        !s0.state@[1].item.eq_spec(&items@[1]),
        !s0.state@[2].item.eq_spec(&items@[0]),
    ensures
        s1.state@.len() == 2,
        s1.state@[0].node == s0.state@[0].node,
        s1.state@[1].node == s0.state@[2].node,
        u1.created@.len() == 0,
        u1.destroyed@.len() == 1,
        u1.destroyed@[0] == s0.state@[1].node,
{
    reveal(built);
    let prevs = s0.state@;
    let nexts = items@;
    let out = s1.state@;
    assert(out.len() == 2);
    assert(nodes_of(prevs)[0] == prevs[0].node);
    assert(nodes_of(prevs)[1] == prevs[1].node);
    assert(nodes_of(prevs)[2] == prevs[2].node);

    // The first output position reuses the first record's node.
    assert((out[0].node as int) < id0) by {
        if (out[0].node as int) >= id0 {
            assert(u1.destroyed@.contains(prevs[0].node)) by {
                if nodes_of(out).contains(prevs[0].node) {
                    let kk = choose|kk: int|
                        0 <= kk < nodes_of(out).len() && nodes_of(out)[kk] == prevs[0].node;
                    assert(out[kk].node == prevs[0].node);
                    assert((out[kk].node as int) < id0);
                    let jj = choose|jj: int|
                        0 <= jj < prevs.len() && prevs[jj].node == out[kk].node
                            && prevs[jj].item.eq_spec(&nexts[kk]);
                    assert(nodes_of(prevs)[jj] == prevs[0].node);
                    assert(jj == 0);
                }
            }
            assert(blocked(prevs, out, id0, 0, 0));
            let (k2, j2) = choose|k2: int, j2: int|
                0 <= k2 < out.len() && 0 <= j2 < prevs.len() && prevs[j2].node == out[k2].node
                    && ((out[k2].node as int) < id0) && ((k2 < 0 && j2 > 0) || (k2 > 0 && j2
                    < 0));
            assert(false);
        }
    }
    assert(out[0].node == prevs[0].node) by {
        let jj = choose|jj: int|
            0 <= jj < prevs.len() && prevs[jj].node == out[0].node && prevs[jj].item.eq_spec(
                &nexts[0],
            );
        assert(jj == 0);
    }
    // The second output position reuses the third record's node.
    assert((out[1].node as int) < id0) by {
        if (out[1].node as int) >= id0 {
            assert(u1.destroyed@.contains(prevs[2].node)) by {
                if nodes_of(out).contains(prevs[2].node) {
                    let kk = choose|kk: int|
                        0 <= kk < nodes_of(out).len() && nodes_of(out)[kk] == prevs[2].node;
                    assert(out[kk].node == prevs[2].node);
                    assert((out[kk].node as int) < id0);
                    let jj = choose|jj: int|
                        0 <= jj < prevs.len() && prevs[jj].node == out[kk].node
                            && prevs[jj].item.eq_spec(&nexts[kk]);
                    assert(nodes_of(prevs)[jj] == prevs[2].node);
                    assert(jj == 2);
                }
            }
            assert(blocked(prevs, out, id0, 2, 1));
            let (k2, j2) = choose|k2: int, j2: int|
                0 <= k2 < out.len() && 0 <= j2 < prevs.len() && prevs[j2].node == out[k2].node
                    && ((out[k2].node as int) < id0) && ((k2 < 1 && j2 > 2) || (k2 > 1 && j2
                    < 2));
            assert(false);
        }
    }
    assert(out[1].node == prevs[2].node) by {
        let jj = choose|jj: int|
            0 <= jj < prevs.len() && prevs[jj].node == out[1].node && prevs[jj].item.eq_spec(
                &nexts[1],
            );
        assert(jj == 2);
    }

    assert(u1.created@.len() == 0) by {
        if u1.created@.len() > 0 {
            assert(out.contains(u1.created@[0]));
            let i = choose|i: int| 0 <= i < out.len() && out[i] == u1.created@[0];
            assert((out[i].node as int) >= id0);
        }
    }
    assert(u1.destroyed@.len() == 1);
    assert(u1.destroyed@.contains(prevs[1].node)) by {
        if nodes_of(out).contains(prevs[1].node) {
            let k = choose|k: int|
                0 <= k < nodes_of(out).len() && nodes_of(out)[k] == prevs[1].node;
            assert(out[k].node == prevs[1].node);
        }
    }
    let i = choose|i: int| 0 <= i < u1.destroyed@.len() && u1.destroyed@[i] == prevs[1].node;
    assert(u1.destroyed@[0] == prevs[1].node);
}

/// Inserting one new item between two retained ones keeps both their nodes
/// in place, creates exactly one node for the new item, standing between
/// them, and destroys nothing.
#[verifier::rlimit(30)]
pub proof fn list_pure_insertion<T: ItemEq>(
    s0: ForEach<T>,
    items: Vec<T>,
    s1: ForEach<T>,
    u1: ListUpdate<T>,
    id0: int,
)
    requires
        list_update_rel(s0, Some(items), s1, u1, id0),
        nodes_of(s0.state@).no_duplicates(),
        forall|i: int| 0 <= i < s0.state@.len() ==> ((#[trigger] s0.state@[i]).node as int) < id0,
        s0.state@.len() == 2,
        items@.len() == 3,
        s0.state@[0].item.eq_spec(&items@[0]),
        s0.state@[1].item.eq_spec(&items@[2]),
        !s0.state@[0].item.eq_spec(&items@[1]),
        !s0.state@[0].item.eq_spec(&items@[2]),
        !s0.state@[1].item.eq_spec(&items@[0]),
        !s0.state@[1].item.eq_spec(&items@[1]),
    ensures
        s1.state@.len() == 3,
        s1.state@[0].node == s0.state@[0].node,
        s1.state@[2].node == s0.state@[1].node,
        (s1.state@[1].node as int) >= id0,
        u1.created@.len() == 1,
        u1.created@[0] == s1.state@[1],
        u1.destroyed@.len() == 0,
{
    reveal(built);
    let prevs = s0.state@;
    let nexts = items@;
    let out = s1.state@;
    assert(out.len() == 3);
    assert(nodes_of(prevs)[0] == prevs[0].node);
    assert(nodes_of(prevs)[1] == prevs[1].node);

    // The middle item equals no previous one, so its node is fresh.
    assert((out[1].node as int) >= id0) by {
        if (out[1].node as int) < id0 {
            let j = choose|j: int|
                0 <= j < prevs.len() && prevs[j].node == out[1].node && prevs[j].item.eq_spec(
                    &nexts[1],
                );
        }
    }
    // The first output position reuses the first record's node.
    assert((out[0].node as int) < id0) by {
        if (out[0].node as int) >= id0 {
            assert(u1.destroyed@.contains(prevs[0].node)) by {
                if nodes_of(out).contains(prevs[0].node) {
                    let kk = choose|kk: int|
                        0 <= kk < nodes_of(out).len() && nodes_of(out)[kk] == prevs[0].node;
                    assert(out[kk].node == prevs[0].node);
                    assert((out[kk].node as int) < id0);
                    let jj = choose|jj: int|
                        0 <= jj < prevs.len() && prevs[jj].node == out[kk].node
                            && prevs[jj].item.eq_spec(&nexts[kk]);
                    assert(nodes_of(prevs)[jj] == prevs[0].node);
                    assert(jj == 0);
                }
            }
            assert(blocked(prevs, out, id0, 0, 0));
            let (k2, j2) = choose|k2: int, j2: int|
                0 <= k2 < out.len() && 0 <= j2 < prevs.len() && prevs[j2].node == out[k2].node
                    && ((out[k2].node as int) < id0) && ((k2 < 0 && j2 > 0) || (k2 > 0 && j2
                    < 0));
            assert(false);
        }
    }
    assert(out[0].node == prevs[0].node) by {
        let jj = choose|jj: int|
            0 <= jj < prevs.len() && prevs[jj].node == out[0].node && prevs[jj].item.eq_spec(
                &nexts[0],
            );
        assert(jj == 0);
    }
    // The last output position reuses the second record's node.
    assert((out[2].node as int) < id0) by {
        if (out[2].node as int) >= id0 {
            assert(u1.destroyed@.contains(prevs[1].node)) by {
                if nodes_of(out).contains(prevs[1].node) {
                    let kk = choose|kk: int|
                        0 <= kk < nodes_of(out).len() && nodes_of(out)[kk] == prevs[1].node;
                    assert(out[kk].node == prevs[1].node);
                    assert((out[kk].node as int) < id0);
                    let jj = choose|jj: int|
                        0 <= jj < prevs.len() && prevs[jj].node == out[kk].node
                            && prevs[jj].item.eq_spec(&nexts[kk]);
                    assert(nodes_of(prevs)[jj] == prevs[1].node);
                    assert(jj == 1);
                }
            }
            assert(blocked(prevs, out, id0, 1, 2));
            let (k2, j2) = choose|k2: int, j2: int|
                0 <= k2 < out.len() && 0 <= j2 < prevs.len() && prevs[j2].node == out[k2].node
                    && ((out[k2].node as int) < id0) && ((k2 < 2 && j2 > 1) || (k2 > 2 && j2
                    < 1));
            assert(false);
        }
    }
    assert(out[2].node == prevs[1].node) by {
        let jj = choose|jj: int|
            0 <= jj < prevs.len() && prevs[jj].node == out[2].node && prevs[jj].item.eq_spec(
                &nexts[2],
            );
        assert(jj == 1);
    }

    assert(u1.destroyed@.len() == 0) by {
        lemma_subseq_props(u1.destroyed@, nodes_of(prevs));
        if u1.destroyed@.len() > 0 {
            assert(u1.destroyed@.contains(u1.destroyed@[0]));
            assert(nodes_of(prevs).contains(u1.destroyed@[0]));
            let j = choose|j: int|
                0 <= j < nodes_of(prevs).len() && nodes_of(prevs)[j] == u1.destroyed@[0];
            assert(prevs[j].node == u1.destroyed@[0]);
            assert(nodes_of(out).contains(prevs[j].node)) by {
                if j == 0 {
                    assert(nodes_of(out)[0] == prevs[0].node);
                } else {
                    assert(nodes_of(out)[2] == prevs[1].node);
                }
            }
        }
    }
    assert(u1.created@.len() == 1);
    assert(u1.created@[0] == out[1]) by {
        assert(out.contains(u1.created@[0]));
        let i = choose|i: int| 0 <= i < out.len() && out[i] == u1.created@[0];
        assert((u1.created@[0].node as int) == id0);
        assert((out[0].node as int) < id0);
        assert((out[2].node as int) < id0);
        assert(i == 1);
    }
}

/// A previous item that no next item equals loses its node: reuse happens
/// only for an item an equal successor exists for.
pub proof fn list_unmatched_item_is_destroyed<T: ItemEq>(
    s0: ForEach<T>,
    items: Vec<T>,
    s1: ForEach<T>,
    u1: ListUpdate<T>,
    id0: int,
    j: int,
)
    requires
        list_update_rel(s0, Some(items), s1, u1, id0),
        nodes_of(s0.state@).no_duplicates(),
        forall|i: int| 0 <= i < s0.state@.len() ==> ((#[trigger] s0.state@[i]).node as int) < id0,
        0 <= j < s0.state@.len(),
        forall|k: int| 0 <= k < items@.len() ==> !(#[trigger] s0.state@[j].item.eq_spec(&items@[k])),
    ensures
        u1.destroyed@.contains(s0.state@[j].node),
{
    reveal(built);
    let prevs = s0.state@;
    let out = s1.state@;
    let n = prevs[j].node;
    if nodes_of(out).contains(n) {
        let k = choose|k: int| 0 <= k < nodes_of(out).len() && nodes_of(out)[k] == n;
        assert(out[k].node == n);
        assert((out[k].node as int) < id0) by {
            assert(nodes_of(prevs)[j] == n);
        }
        let j2 = choose|j2: int|
            0 <= j2 < prevs.len() && prevs[j2].node == out[k].node && prevs[j2].item.eq_spec(
                &items@[k],
            );
        assert(j2 == j) by {
            assert(nodes_of(prevs)[j2] == n);
            assert(nodes_of(prevs)[j] == n);
        }
        assert(!(s0.state@[j].item.eq_spec(&items@[k])));
    }
}

/// Swapping two distinct items reuses exactly one node: the other position
/// pays one destruction and one creation, because a single ordered
/// correspondence cannot carry both sides of a crossing. The items still
/// come out in the swapped order.
#[verifier::rlimit(30)]
pub proof fn list_swap_churns_one<T: ItemEq>(
    s0: ForEach<T>,
    items: Vec<T>,
    s1: ForEach<T>,
    u1: ListUpdate<T>,
    id0: int,
)
    requires
        list_update_rel(s0, Some(items), s1, u1, id0),
        nodes_of(s0.state@).no_duplicates(),
        forall|i: int| 0 <= i < s0.state@.len() ==> ((#[trigger] s0.state@[i]).node as int) < id0,
        s0.state@.len() == 2,
        items@.len() == 2,
        s0.state@[0].item.eq_spec(&items@[1]),
        s0.state@[1].item.eq_spec(&items@[0]),
        !s0.state@[0].item.eq_spec(&items@[0]),
        !s0.state@[1].item.eq_spec(&items@[1]),
    ensures
        s1.state@.len() == 2,
        u1.created@.len() == 1,
        u1.destroyed@.len() == 1,
        ((s1.state@[0].node == s0.state@[1].node) || (s1.state@[1].node == s0.state@[0].node)),
{
    reveal(built);
    let prevs = s0.state@;
    let nexts = items@;
    let out = s1.state@;
    assert(out.len() == 2);
    assert(nodes_of(prevs)[0] == prevs[0].node);
    assert(nodes_of(prevs)[1] == prevs[1].node);
    assert(nodes_of(out)[0] == out[0].node);
    assert(nodes_of(out)[1] == out[1].node);

    // A kept record at the first position carries the second previous node,
    // and one at the second position carries the first: the items force it.
    if (out[0].node as int) < id0 {
        let jj = choose|jj: int|
            0 <= jj < prevs.len() && prevs[jj].node == out[0].node && prevs[jj].item.eq_spec(
                &nexts[0],
            );
        assert(jj == 1);
        assert(out[0].node == prevs[1].node);
    }
    if (out[1].node as int) < id0 {
        let jj = choose|jj: int|
            0 <= jj < prevs.len() && prevs[jj].node == out[1].node && prevs[jj].item.eq_spec(
                &nexts[1],
            );
        assert(jj == 0);
        assert(out[1].node == prevs[0].node);
    }

    // Both positions cannot be kept: the reused nodes would stand in the
    // order second-then-first, which is no selection from first-then-second.
    if (out[0].node as int) < id0 && (out[1].node as int) < id0 {
        lemma_filter_all(out, |li: ListItem<T>| (li.node as int) < id0);
        assert(kept_of(out, id0) == out);
        assert(is_subseq(nodes_of(out), nodes_of(prevs)));
        assert(nodes_of(out)[0] == prevs[1].node);
        assert(nodes_of(out)[1] == prevs[0].node);
        reveal_with_fuel(is_subseq, 4);
        assert(false);
    }

    // Neither can both be fresh: the maximal correspondence would then be
    // empty, yet an equal pair with nothing to block it exists.
    if (out[0].node as int) >= id0 && (out[1].node as int) >= id0 {
        assert(u1.destroyed@.contains(prevs[0].node)) by {
            if nodes_of(out).contains(prevs[0].node) {
                let kk = choose|kk: int|
                    0 <= kk < nodes_of(out).len() && nodes_of(out)[kk] == prevs[0].node;
                assert(out[kk].node == prevs[0].node);
                assert((out[kk].node as int) < id0);
            }
        }
        assert(blocked(prevs, out, id0, 0, 1));
        let (k2, j2) = choose|k2: int, j2: int|
            0 <= k2 < out.len() && 0 <= j2 < prevs.len() && prevs[j2].node == out[k2].node && ((
            out[k2].node as int) < id0) && ((k2 < 1 && j2 > 0) || (k2 > 1 && j2 < 0));
        assert(false);
    }

    // Exactly one record is fresh, so exactly one node was created and, by
    // the balance of creations and destructions, exactly one destroyed.
    assert(u1.created@.len() == 1) by {
        if u1.created@.len() == 0 {
            assert((out[0].node as int) < id0 || (out[1].node as int) < id0);
            if (out[0].node as int) >= id0 {
                assert(id0 <= out[0].node as int && (out[0].node as int) < id0);
            }
            if (out[1].node as int) >= id0 {
                assert(id0 <= out[1].node as int && (out[1].node as int) < id0);
            }
            assert(false);
        }
        if u1.created@.len() >= 2 {
            assert(out.contains(u1.created@[0]));
            assert(out.contains(u1.created@[1]));
            let i0 = choose|i: int| 0 <= i < out.len() && out[i] == u1.created@[0];
            let i1 = choose|i: int| 0 <= i < out.len() && out[i] == u1.created@[1];
            assert((out[i0].node as int) == id0);
            assert((out[i1].node as int) == id0 + 1);
            assert(i0 != i1);
            assert((out[0].node as int) < id0 || (out[1].node as int) < id0);
            assert(false);
        }
    }
}

/// A computed value that matches no case resolves to the fallback subtree
/// where one is configured, and to an empty subtree where none is. The
/// rebuild happens whenever the no-match state is fresh: on a first run or
/// after a tick that had selected a case.
pub proof fn switch_no_match_falls_back<V: ItemEq>(
    s0: Switch<V>,
    v: V,
    s1: Switch<V>,
    a1: SwitchAction,
)
    requires
        switch_update_rel(s0, Some(v), s1, a1),
        no_case_matches(s0.cases@, v),
        s0.cases@.len() < usize::MAX,
        !s0.active || s0.switch_index != usize::MAX,
    ensures
        s0.has_fallback ==> a1 == SwitchAction::BuildFallback,
        !s0.has_fallback ==> a1 == SwitchAction::Clear,
        s1.switch_index == usize::MAX,
{
}

/// A previously non-empty list that becomes empty destroys every item node
/// and builds the fallback subtree, exactly once.
pub proof fn list_empty_transition<T: ItemEq>(
    s0: ForEach<T>,
    empty_items: Vec<T>,
    s1: ForEach<T>,
    u1: ListUpdate<T>,
    id0: int,
)
    requires
        list_update_rel(s0, Some(empty_items), s1, u1, id0),
        empty_items@.len() == 0,
        s0.state@.len() > 0,
        forall|j: int| 0 <= j < s0.state@.len() ==> ((#[trigger] s0.state@[j]).node as int) < id0,
    ensures
        u1.action == ListAction::BuildFallback,
        u1.created@.len() == 0,
        u1.destroyed@.len() == s0.state@.len(),
        forall|j: int|
            0 <= j < s0.state@.len() ==> u1.destroyed@.contains((#[trigger] s0.state@[j]).node),
        s1.state@.len() == 0,
{
    reveal(built);
    let prevs = s0.state@;
    let out = s1.state@;
    assert(out.len() == 0);
    assert(u1.created@.len() == 0) by {
        if u1.created@.len() > 0 {
            assert(out.contains(u1.created@[0]));
            let i = choose|i: int| 0 <= i < out.len() && out[i] == u1.created@[0];
        }
    }
    assert forall|j: int| 0 <= j < prevs.len() implies u1.destroyed@.contains(
        (#[trigger] prevs[j]).node,
    ) by {
        if nodes_of(out).contains(prevs[j].node) {
            let k = choose|k: int| 0 <= k < nodes_of(out).len() && nodes_of(out)[k] == prevs[j].node;
        }
    }
}

/// A list that stays empty after its fallback was built performs no further
/// rebuild: subsequent empty ticks are structurally silent.
pub proof fn list_stays_empty_silent<T: ItemEq>(
    s1: ForEach<T>,
    empty_items: Vec<T>,
    s2: ForEach<T>,
    u2: ListUpdate<T>,
    id1: int,
)
    requires
        list_update_rel(s1, Some(empty_items), s2, u2, id1),
        empty_items@.len() == 0,
        s1.state@.len() == 0,
        s1.active,
    ensures
        u2.action == ListAction::Keep,
        u2.created@.len() == 0,
        u2.destroyed@.len() == 0,
        s2.state@.len() == 0,
{
    reveal(built);
    let out = s2.state@;
    assert(u2.created@.len() == 0) by {
        if u2.created@.len() > 0 {
            assert(out.contains(u2.created@[0]));
            let i = choose|i: int| 0 <= i < out.len() && out[i] == u2.created@[0];
        }
    }
}

} // verus!
