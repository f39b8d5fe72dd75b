use reactive_tree::Cond;
use reactive_tree::CondAction;
use reactive_tree::ForEach;
use reactive_tree::ListAction;
use reactive_tree::Switch;
use reactive_tree::SwitchAction;

#[test]
fn cond_first_run_builds_even_on_default_value() {
    // The first successful evaluation rebuilds even though the computed
    // boolean equals the freshly constructed retained value.
    let mut c = Cond::new();
    let a = c.update(Some(false));
    assert_eq!(a, CondAction::Build { positive: false });
    assert!(c.active);
    assert_eq!(c.state, false);
}

#[test]
fn cond_unchanged_value_is_silent() {
    let mut c = Cond::new();
    let _ = c.update(Some(true));
    let a = c.update(Some(true));
    assert_eq!(a, CondAction::Keep);
    assert_eq!(c.state, true);
}

#[test]
fn cond_toggle_rebuilds_other_branch() {
    let mut c = Cond::new();
    let _ = c.update(Some(true));
    let a = c.update(Some(false));
    assert_eq!(a, CondAction::Build { positive: false });
    assert_eq!(c.state, false);
}

#[test]
fn cond_failure_skips_the_tick() {
    let mut c = Cond::new();
    let _ = c.update(Some(true));
    let a = c.update(None);
    assert_eq!(a, CondAction::Keep);
    assert_eq!(c.state, true);
    // The retained state still compares against the next successful value.
    let a2 = c.update(Some(true));
    assert_eq!(a2, CondAction::Keep);
}

#[test]
fn cond_failure_on_first_tick_keeps_forcing() {
    // A failure before anything was materialized must not eat the first-run
    // rebuild: the next successful evaluation still builds.
    let mut c = Cond::new();
    let a = c.update(None);
    assert_eq!(a, CondAction::Keep);
    let a2 = c.update(Some(false));
    assert_eq!(a2, CondAction::Build { positive: false });
}

#[test]
fn cond_cleanup_disposes() {
    let mut c = Cond::new();
    let _ = c.update(Some(true));
    c.cleanup();
    assert!(c.disposed);
    assert!(c.active);
}

#[test]
fn switch_selects_matching_case() {
    let mut s = Switch::<u64>::new().case(4).case(7);
    let a = s.update(Some(7));
    assert_eq!(a, SwitchAction::BuildCase { index: 1 });
    assert_eq!(s.switch_index, 1);
}

#[test]
fn switch_duplicate_values_first_wins() {
    let mut s = Switch::<u64>::new().case(1).case(2).case(2);
    let a = s.update(Some(2));
    assert_eq!(a, SwitchAction::BuildCase { index: 1 });
}

#[test]
fn switch_no_match_builds_fallback() {
    let mut s = Switch::<u64>::new().case(1).case(2).fallback();
    let a = s.update(Some(9));
    assert_eq!(a, SwitchAction::BuildFallback);
    assert_eq!(s.switch_index, usize::MAX);
}

#[test]
fn switch_no_match_without_fallback_clears() {
    // With no fallback configured the anchor ends up with no children.
    let mut s = Switch::<u64>::new().case(1);
    let a = s.update(Some(9));
    assert_eq!(a, SwitchAction::Clear);
}

#[test]
fn switch_unchanged_selection_is_silent() {
    let mut s = Switch::<u64>::new().case(4).case(7);
    let _ = s.update(Some(4));
    let a = s.update(Some(4));
    assert_eq!(a, SwitchAction::Keep);
}

#[test]
fn switch_changed_selection_rebuilds() {
    let mut s = Switch::<u64>::new().case(4).case(7);
    let _ = s.update(Some(4));
    let a = s.update(Some(7));
    assert_eq!(a, SwitchAction::BuildCase { index: 1 });
}

#[test]
fn switch_failure_skips_the_tick() {
    let mut s = Switch::<u64>::new().case(4);
    let _ = s.update(Some(4));
    let a = s.update(None);
    assert_eq!(a, SwitchAction::Keep);
    assert_eq!(s.switch_index, 0);
}

#[test]
fn switch_cleanup_disposes() {
    let mut s = Switch::<u64>::new().case(4);
    let _ = s.update(Some(4));
    s.cleanup();
    assert!(s.disposed);
}

#[test]
fn foreach_first_run_with_empty_list_builds_fallback() {
    let mut e = ForEach::<u64>::new();
    let u = e.update(Some(Vec::new()), 1);
    assert_eq!(u.action, ListAction::BuildFallback);
    assert!(u.created.is_empty());
    assert!(u.destroyed.is_empty());
    assert!(e.active);
}

#[test]
fn foreach_staying_empty_is_silent() {
    let mut e = ForEach::<u64>::new();
    let u1 = e.update(Some(Vec::new()), 1);
    assert_eq!(u1.action, ListAction::BuildFallback);
    let u2 = e.update(Some(Vec::new()), u1.next_id);
    assert_eq!(u2.action, ListAction::Keep);
    assert!(u2.created.is_empty());
    assert!(u2.destroyed.is_empty());
}

#[test]
fn foreach_first_items_clear_and_replace() {
    let mut e = ForEach::<u64>::new();
    let u = e.update(Some(vec![5, 6]), 1);
    assert_eq!(u.action, ListAction::Replace { clear_first: true });
    assert_eq!(u.created.len(), 2);
    assert_eq!(u.children, vec![1, 2]);
    assert_eq!(u.next_id, 3);
}

#[test]
fn foreach_emptying_destroys_and_falls_back() {
    let mut e = ForEach::<u64>::new();
    let u1 = e.update(Some(vec![5, 6]), 1);
    let u2 = e.update(Some(Vec::new()), u1.next_id);
    assert_eq!(u2.action, ListAction::BuildFallback);
    assert!(u2.created.is_empty());
    let mut destroyed = u2.destroyed.clone();
    destroyed.sort();
    assert_eq!(destroyed, vec![1, 2]);
    assert!(e.state.is_empty());
}

#[test]
fn foreach_unchanged_items_are_silent() {
    let mut e = ForEach::<u64>::new();
    let u1 = e.update(Some(vec![5, 6]), 1);
    let u2 = e.update(Some(vec![5, 6]), u1.next_id);
    assert_eq!(u2.action, ListAction::Replace { clear_first: false });
    assert!(u2.created.is_empty());
    assert!(u2.destroyed.is_empty());
    assert_eq!(u2.children, vec![1, 2]);
}

#[test]
fn foreach_reconciles_removed_item() {
    let mut e = ForEach::<u64>::new();
    let u1 = e.update(Some(vec![1, 2, 3]), 10);
    assert_eq!(u1.children, vec![10, 11, 12]);
    let u2 = e.update(Some(vec![1, 3]), u1.next_id);
    assert_eq!(u2.action, ListAction::Replace { clear_first: false });
    assert!(u2.created.is_empty());
    assert_eq!(u2.destroyed, vec![11]);
    assert_eq!(u2.children, vec![10, 12]);
}

#[test]
fn foreach_failure_skips_the_tick() {
    let mut e = ForEach::<u64>::new();
    let u1 = e.update(Some(vec![5]), 1);
    let u2 = e.update(None, u1.next_id);
    assert_eq!(u2.action, ListAction::Keep);
    assert!(u2.created.is_empty());
    assert!(u2.destroyed.is_empty());
    assert_eq!(e.state.len(), 1);
    assert_eq!(e.state[0].node, 1);
    assert_eq!(e.state[0].item, 5);
}

#[test]
fn foreach_cleanup_disposes() {
    let mut e = ForEach::<u64>::new();
    let u1 = e.update(Some(vec![5]), 1);
    assert_eq!(u1.children.len(), 1);
    e.cleanup();
    assert!(e.disposed);
    assert_eq!(e.state.len(), 1);
}

#[test]
fn switch_over_bool_values() {
    let mut s = Switch::<bool>::new().case(true).case(false);
    let a = s.update(Some(false));
    assert_eq!(a, SwitchAction::BuildCase { index: 1 });
    let a2 = s.update(Some(false));
    assert_eq!(a2, SwitchAction::Keep);
}
