use vstd::prelude::*;

verus! {

/// The structural operation a conditional effect asks its host for.
#[derive(PartialEq, Eq, Structural, Clone, Copy, Debug)]
pub enum CondAction {
    /// Leave the controlled subtree untouched.
    Keep,
    /// Despawn every descendant of the anchor, then instantiate the positive
    /// or the negative branch.
    Build { positive: bool },
}

/// The state machine of a conditional effect: a boolean-producing computation
/// controls which of two fixed subtrees stands under the anchor node.
///
/// The computation itself lives with the host; each tick the host hands
/// [`Cond::update`] the freshly computed boolean, or `None` when the
/// computation failed to produce one, and performs the returned action.
#[derive(PartialEq, Eq, Structural, Clone, Copy, Debug)]
pub struct Cond {
    /// Whether the effect has materialized content at least once.
    pub active: bool,
    /// The retained discriminant: the boolean of the last rebuild.
    pub state: bool,
    /// Whether the anchor node was removed and the effect cleaned up.
    pub disposed: bool,
}

/// How one tick of a conditional effect relates its state before (`pre`) and
/// after (`post`), the computed value (`result`) and the action returned.
pub open spec fn cond_update_rel(pre: Cond, result: Option<bool>, post: Cond, a: CondAction) -> bool {
    match result {
        None => post == pre && a == CondAction::Keep,
        Some(v) => if !pre.active || v != pre.state {
            &&& a == (CondAction::Build { positive: v })
            &&& post == (Cond { active: true, state: v, disposed: pre.disposed })
        } else {
            &&& a == CondAction::Keep
            &&& post == pre
        },
    }
}

impl Cond {
    /// A freshly attached conditional effect: nothing materialized yet, so
    /// the first successful evaluation always rebuilds.
    pub fn new() -> (c: Cond)
        ensures
            c == (Cond { active: false, state: false, disposed: false }),
    {
        Cond { active: false, state: false, disposed: false }
    }

    /// One tick. `result` is the freshly computed boolean, or `None` when the
    /// computation failed this tick; on failure nothing changes and the
    /// effect retries next tick. A rebuild happens exactly when the value
    /// differs from the retained one or nothing was materialized yet.
    pub fn update(&mut self, result: Option<bool>) -> (a: CondAction)
        requires
            !old(self).disposed,
        ensures
            cond_update_rel(*old(self), result, *final(self), a),
    {
        match result {
            None => CondAction::Keep,
            Some(v) => {
                if !self.active || v != self.state {
                    self.active = true;
                    self.state = v;
                    CondAction::Build { positive: v }
                } else {
                    CondAction::Keep
                }
            },
        }
    }

    /// The anchor node was removed: the effect releases its computation and
    /// receives no further ticks.
    pub fn cleanup(&mut self)
        ensures
            *final(self) == (Cond { disposed: true, ..*old(self) }),
    {
        self.disposed = true;
    }
}

} // verus!
