//! A reactive subtree-reconciliation core for a retained scene graph.
//!
//! Each reactive effect tracks a computed discriminant (a boolean, a switch
//! value, or an ordered item list) and decides, tick by tick, which structural
//! changes keep its controlled subtree in sync: a conditional branch, a
//! multi-way switch, or a keyed list reconciled with minimal churn through a
//! recursive longest-common-run matching algorithm.
//!
//! The library is the decision core: it owns the effect state machines and the
//! reconciliation algorithm, and reports the structural operations (nodes to
//! create, nodes to destroy, the final child order) as plain values. A host
//! adapter performs those operations on its own scene graph and feeds each
//! effect the freshly computed discriminant on every tick.

mod cond;
mod foreach;
mod items;
mod laws;
mod lcs;
mod list;
mod reconcile;
mod switch;

pub use cond::Cond;
pub use cond::CondAction;
pub use cond::cond_update_rel;
pub use foreach::ForEach;
pub use foreach::ListAction;
pub use foreach::ListUpdate;
pub use foreach::list_update_rel;
pub use items::ItemEq;
pub use laws::cond_first_run_builds;
pub use laws::cond_repeat_keeps;
pub use laws::list_empty_transition;
pub use laws::list_first_run_builds;
pub use laws::list_pure_insertion;
pub use laws::list_repeat_reorders_only;
pub use laws::list_retains_common_subsequence;
pub use laws::list_stays_empty_silent;
pub use laws::list_swap_churns_one;
pub use laws::list_total_replacement;
pub use laws::list_unmatched_item_is_destroyed;
pub use laws::switch_first_run_builds;
pub use laws::switch_no_match_falls_back;
pub use laws::switch_repeat_keeps;
pub use lcs::lcs;
pub use lcs::run_len;
pub use list::ListItem;
pub use list::is_subseq;
pub use list::items_of;
pub use list::nodes_of;
pub use reconcile::Reconciled;
pub use reconcile::built;
pub use reconcile::blocked;
pub use reconcile::kept_of;
pub use reconcile::maximal_matching;
pub use reconcile::reconcile;
pub use switch::Switch;
pub use switch::SwitchAction;
pub use switch::is_first_match;
pub use switch::no_case_matches;
pub use switch::selected_index;
pub use switch::switch_update_rel;
