use vstd::prelude::*;

use crate::items::ItemEq;
use crate::list::ListItem;
use crate::list::items_of;
use crate::list::nodes_of;
use crate::reconcile::Reconciled;
use crate::reconcile::built;
use crate::reconcile::maximal_matching;
use crate::reconcile::reconcile;

verus! {

/// The structural operation a list effect asks its host for, beside the
/// per-item creations and destructions of the reconciliation itself.
#[derive(PartialEq, Eq, Structural, Clone, Copy, Debug)]
pub enum ListAction {
    /// Leave the anchor's subtree untouched.
    Keep,
    /// The list became (or started) empty: despawn every descendant of the
    /// anchor and instantiate the fallback subtree.
    BuildFallback,
    /// Set the anchor's child list to exactly `children`, in order; when
    /// `clear_first` holds the previous list was empty, so the anchor's
    /// descendants (a fallback, if any) are despawned first.
    Replace { clear_first: bool },
}

/// What one tick of a list effect asks its host to do: create a node per
/// record of `created` (instantiating the per-item subtree for its item),
/// despawn each node of `destroyed`, then apply `action` with the new child
/// order `children`. `next_id` is the advanced node identifier counter.
pub struct ListUpdate<T> {
    /// The structural operation on the anchor itself.
    pub action: ListAction,
    /// Records whose nodes must be freshly instantiated, in creation order.
    pub created: Vec<ListItem<T>>,
    /// Previously retained nodes to despawn, in retained order.
    pub destroyed: Vec<u64>,
    /// The node identifiers of the new child list, in order.
    pub children: Vec<u64>,
    /// The advanced node identifier counter.
    pub next_id: u64,
}

/// The state machine of a list effect: an item-sequence-producing computation
/// controls one instantiated subtree per item under the anchor node,
/// reconciled against the previous instantiation with minimal churn.
///
/// The computation and the per-item and fallback subtree factories live with
/// the host; each tick the host hands [`ForEach::update`] the freshly
/// computed item sequence, or `None` when the computation failed, and
/// performs the returned operations.
pub struct ForEach<T: ItemEq> {
    /// The retained records, ordered identically to the anchor's child list.
    pub state: Vec<ListItem<T>>,
    /// Whether the effect has materialized content at least once.
    pub active: bool,
    /// Whether the anchor node was removed and the effect cleaned up.
    pub disposed: bool,
}

/// How one tick of a list effect relates its state before (`pre`) and after
/// (`post`), the computed item sequence (`result`) and the update returned,
/// with the node identifier counter starting at `id0`.
pub open spec fn list_update_rel<T: ItemEq>(
    pre: ForEach<T>,
    result: Option<Vec<T>>,
    post: ForEach<T>,
    u: ListUpdate<T>,
    id0: int,
) -> bool {
    &&& post.disposed == pre.disposed
    &&& match result {
        None => {
            &&& post.state == pre.state
            &&& post.active == pre.active
            &&& u.action == ListAction::Keep
            &&& u.created@.len() == 0
            &&& u.destroyed@.len() == 0
            &&& u.children@ == nodes_of(pre.state@)
            &&& u.next_id as int == id0
        },
        Some(items) => {
            &&& built(
                pre.state@,
                items@,
                post.state@,
                u.created@,
                u.destroyed@,
                id0,
                id0,
                u.next_id as int,
            )
            &&& post.active
            &&& u.children@ == nodes_of(post.state@)
            &&& u.action == (if items@.len() == 0 {
                if pre.state@.len() > 0 || !pre.active {
                    ListAction::BuildFallback
                } else {
                    ListAction::Keep
                }
            } else {
                ListAction::Replace { clear_first: pre.state@.len() == 0 }
            })
            // The reuse correspondence is maximal: a destroyed record's
            // item equals a created node's item only across a reused record.
            &&& maximal_matching(pre.state@, items@, post.state@, u.destroyed@, id0)
            // A pointwise-matching item sequence is structurally silent:
            // every node is reused, in place.
            &&& ((pre.state@.len() == items@.len() && (forall|k: int|
                0 <= k < pre.state@.len() ==> (#[trigger] pre.state@[k]).item.eq_spec(
                    &items@[k],
                ))) ==> (nodes_of(post.state@) == nodes_of(pre.state@) && u.created@.len() == 0
                && u.destroyed@.len() == 0))
        },
    }
}

impl<T: ItemEq + Copy> ForEach<T> {
    /// A freshly attached list effect: no records retained yet, so the first
    /// successful evaluation always materializes content, the fallback
    /// included when the first item sequence is already empty.
    pub fn new() -> (e: ForEach<T>)
        ensures
            e.state@ =~= Seq::<ListItem<T>>::empty(),
            !e.active,
            !e.disposed,
    {
        ForEach { state: Vec::new(), active: false, disposed: false }
    }

    /// One tick. `result` is the freshly computed item sequence, or `None`
    /// when the computation failed this tick; on failure nothing changes and
    /// the effect retries next tick. Otherwise the retained records are
    /// reconciled against the items; an empty sequence resolves to the
    /// fallback subtree, built only when the list was previously non-empty
    /// or nothing was materialized yet.
    ///
    /// `next_id` is the host's node identifier counter: every existing node
    /// stays below it, and fresh nodes are drawn from it consecutively.
    pub fn update(&mut self, result: Option<Vec<T>>, next_id: u64) -> (u: ListUpdate<T>)
        requires
            !old(self).disposed,
            nodes_of(old(self).state@).no_duplicates(),
            forall|j: int|
                0 <= j < old(self).state@.len() ==> (#[trigger] old(self).state@[j]).node
                    < next_id,
            result matches Some(items) ==> next_id + items@.len() <= u64::MAX,
        ensures
            list_update_rel(*old(self), result, *final(self), u, next_id as int),
            nodes_of(final(self).state@).no_duplicates(),
            forall|j: int|
                0 <= j < final(self).state@.len() ==> (#[trigger] final(self).state@[j]).node
                    < u.next_id,
            next_id <= u.next_id,
            result matches Some(items) ==> final(self).state@.len() == items@.len()
                && items_of(final(self).state@) == items@,
            (result matches Some(items) && old(self).state@.len() == items@.len() && (forall|
                k: int,
            |
                0 <= k < old(self).state@.len() ==> (#[trigger] old(self).state@[k]).item.eq_spec(
                    &items@[k],
                ))) ==> (nodes_of(final(self).state@) == nodes_of(old(self).state@)
                && u.created@.len() == 0 && u.destroyed@.len() == 0),
    {
        match result {
            None => {
                let children = collect_state_nodes(&self.state);
                ListUpdate {
                    action: ListAction::Keep,
                    created: Vec::new(),
                    destroyed: Vec::new(),
                    children,
                    next_id,
                }
            },
            Some(items) => {
                let rec: Reconciled<T> = reconcile(&self.state, &items, next_id);
                let prev_len = self.state.len();
                let next_len = items.len();
                let first = !self.active;
                self.state = rec.state;
                self.active = true;
                let children = collect_state_nodes(&self.state);
                let action = if next_len == 0 {
                    if prev_len > 0 || first {
                        ListAction::BuildFallback
                    } else {
                        ListAction::Keep
                    }
                } else {
                    ListAction::Replace { clear_first: prev_len == 0 }
                };
                ListUpdate {
                    action,
                    created: rec.created,
                    destroyed: rec.destroyed,
                    children,
                    next_id: rec.next_id,
                }
            },
        }
    }

    /// The anchor node was removed: the effect releases its computation and
    /// receives no further ticks.
    pub fn cleanup(&mut self)
        ensures
            final(self).state == old(self).state,
            final(self).active == old(self).active,
            final(self).disposed,
    {
        self.disposed = true;
    }
}

/// The node identifiers of the retained records, in order.
fn collect_state_nodes<T: ItemEq + Copy>(state: &Vec<ListItem<T>>) -> (r: Vec<u64>)
    ensures
        r@ == nodes_of(state@),
{
    let n = state.len();
    let mut r: Vec<u64> = Vec::new();
    let mut i: usize = 0;
    while i < n
        invariant
            n == state@.len(),
            i <= n,
            r@ == nodes_of(state@.subrange(0, i as int)),
        decreases n - i,
    {
        r.push(state[i].node);
        proof {
            assert(nodes_of(state@.subrange(0, (i + 1) as int)) =~= nodes_of(
                state@.subrange(0, i as int),
            ).push(state@[i as int].node));
        }
        i = i + 1;
    }
    proof {
        assert(state@.subrange(0, n as int) =~= state@);
    }
    r
}

} // verus!
