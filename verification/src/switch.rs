use vstd::prelude::*;

use crate::items::ItemEq;

verus! {

/// The structural operation a switch effect asks its host for.
#[derive(PartialEq, Eq, Structural, Clone, Copy, Debug)]
pub enum SwitchAction {
    /// Leave the controlled subtree untouched.
    Keep,
    /// Despawn every descendant of the anchor, then instantiate the subtree
    /// of the case at `index` in the table.
    BuildCase { index: usize },
    /// Despawn every descendant of the anchor, then instantiate the fallback
    /// subtree.
    BuildFallback,
    /// Despawn every descendant of the anchor and build nothing: no case
    /// matched and no fallback is configured.
    Clear,
}

/// The state machine of a switch effect: a value-producing computation is
/// matched by equality against an ordered case table; the first matching
/// case's subtree stands under the anchor, or the fallback when none matches.
///
/// The case subtrees themselves live with the host, in a table parallel to
/// `cases`; the library only decides which of them is wanted.
pub struct Switch<V: ItemEq> {
    /// The ordered case values. With duplicate values the first occurrence
    /// wins; uniqueness is not enforced.
    pub cases: Vec<V>,
    /// Whether a fallback subtree is configured.
    pub has_fallback: bool,
    /// The retained discriminant: the matched case index of the last rebuild,
    /// or `usize::MAX` when no case matched.
    pub switch_index: usize,
    /// Whether the effect has materialized content at least once.
    pub active: bool,
    /// Whether the anchor node was removed and the effect cleaned up.
    pub disposed: bool,
}

/// `j` is the lowest index whose case value equals `v`.
pub open spec fn is_first_match<V: ItemEq>(cases: Seq<V>, v: V, j: int) -> bool {
    &&& 0 <= j < cases.len()
    &&& cases[j].eq_spec(&v)
    &&& forall|i: int| 0 <= i < j ==> !cases[i].eq_spec(&v)
}

/// No case value equals `v`.
pub open spec fn no_case_matches<V: ItemEq>(cases: Seq<V>, v: V) -> bool {
    forall|i: int| 0 <= i < cases.len() ==> !cases[i].eq_spec(&v)
}

/// The index a switch effect selects for the computed value `v`: the lowest
/// matching index, or the distinguished no-match sentinel `usize::MAX`.
pub open spec fn selected_index<V: ItemEq>(cases: Seq<V>, v: V) -> int {
    if no_case_matches(cases, v) {
        usize::MAX as int
    } else {
        choose|j: int| is_first_match(cases, v, j)
    }
}

/// How one tick of a switch effect relates its state before (`pre`) and after
/// (`post`), the computed value (`result`) and the action returned.
pub open spec fn switch_update_rel<V: ItemEq>(
    pre: Switch<V>,
    result: Option<V>,
    post: Switch<V>,
    a: SwitchAction,
) -> bool {
    &&& post.cases == pre.cases
    &&& post.has_fallback == pre.has_fallback
    &&& post.disposed == pre.disposed
    &&& match result {
        None => {
            &&& post.switch_index == pre.switch_index
            &&& post.active == pre.active
            &&& a == SwitchAction::Keep
        },
        Some(v) => {
            let idx = selected_index(pre.cases@, v);
            if pre.active && idx == pre.switch_index as int {
                &&& a == SwitchAction::Keep
                &&& post.switch_index == pre.switch_index
                &&& post.active == pre.active
            } else {
                &&& post.switch_index as int == idx
                &&& post.active
                &&& a == (if idx < pre.cases@.len() {
                    SwitchAction::BuildCase { index: idx as usize }
                } else if pre.has_fallback {
                    SwitchAction::BuildFallback
                } else {
                    SwitchAction::Clear
                })
            }
        },
    }
}

impl<V: ItemEq> Switch<V> {
    /// A freshly attached switch effect with an empty case table and no
    /// fallback. Nothing is materialized yet, so the first successful
    /// evaluation always rebuilds.
    pub fn new() -> (s: Switch<V>)
        ensures
            s.cases@ =~= Seq::<V>::empty(),
            !s.has_fallback,
            s.switch_index == usize::MAX,
            !s.active,
            !s.disposed,
    {
        Switch {
            cases: Vec::new(),
            has_fallback: false,
            switch_index: usize::MAX,
            active: false,
            disposed: false,
        }
    }

    /// Appends a case value to the table. The host appends the matching
    /// subtree factory to its own parallel table.
    pub fn case(self, value: V) -> (s: Switch<V>)
        ensures
            s.cases@ =~= self.cases@.push(value),
            s.has_fallback == self.has_fallback,
            s.switch_index == self.switch_index,
            s.active == self.active,
            s.disposed == self.disposed,
    {
        let mut s = self;
        s.cases.push(value);
        s
    }

    /// Configures a fallback subtree, used when no case matches.
    pub fn fallback(self) -> (s: Switch<V>)
        ensures
            s.cases@ =~= self.cases@,
            s.has_fallback,
            s.switch_index == self.switch_index,
            s.active == self.active,
            s.disposed == self.disposed,
    {
        let mut s = self;
        s.has_fallback = true;
        s
    }

    /// The lowest index whose case value equals `v`, or `usize::MAX` when
    /// none does.
    fn find_case(&self, v: &V) -> (idx: usize)
        requires
            self.cases@.len() < usize::MAX,
        ensures
            idx as int == selected_index(self.cases@, *v),
    {
        let n = self.cases.len();
        let mut i: usize = 0;
        while i < n
            invariant
                n == self.cases@.len(),
                i <= n,
                forall|j: int| 0 <= j < i ==> !self.cases@[j].eq_spec(v),
            decreases n - i,
        {
            if self.cases[i].item_eq(v) {
                proof {
                    assert(is_first_match(self.cases@, *v, i as int));
                    let j = choose|j: int| is_first_match(self.cases@, *v, j);
                    assert(is_first_match(self.cases@, *v, j));
                    assert(j == i as int) by {
                        if j < i as int {
                            assert(!self.cases@[j].eq_spec(v));
                        } else if j > i as int {
                            assert(!self.cases@[i as int].eq_spec(v));
                        }
                    }
                }
                return i;
            }
            i += 1;
        }
        proof {
            assert(no_case_matches(self.cases@, *v));
        }
        usize::MAX
    }

    /// One tick. `result` is the freshly computed value, or `None` when the
    /// computation failed this tick; on failure nothing changes and the
    /// effect retries next tick. A rebuild happens exactly when the selected
    /// index differs from the retained one or nothing was materialized yet;
    /// the rebuilt content is the matched case's subtree, else the fallback,
    /// else nothing.
    pub fn update(&mut self, result: Option<V>) -> (a: SwitchAction)
        requires
            !old(self).disposed,
            old(self).cases@.len() < usize::MAX,
        ensures
            switch_update_rel(*old(self), result, *final(self), a),
    {
        match result {
            None => SwitchAction::Keep,
            Some(v) => {
                let index = self.find_case(&v);
                if !self.active || index != self.switch_index {
                    self.switch_index = index;
                    self.active = true;
                    if index < self.cases.len() {
                        SwitchAction::BuildCase { index }
                    } else if self.has_fallback {
                        SwitchAction::BuildFallback
                    } else {
                        SwitchAction::Clear
                    }
                } else {
                    SwitchAction::Keep
                }
            },
        }
    }

    /// The anchor node was removed: the effect releases its computation and
    /// receives no further ticks.
    pub fn cleanup(&mut self)
        ensures
            final(self).cases == old(self).cases,
            final(self).has_fallback == old(self).has_fallback,
            final(self).switch_index == old(self).switch_index,
            final(self).active == old(self).active,
            final(self).disposed,
    {
        self.disposed = true;
    }
}

} // verus!
