use reactive_tree::ListItem;
use reactive_tree::lcs;
use reactive_tree::reconcile;

fn records(pairs: &[(u64, u64)]) -> Vec<ListItem<u64>> {
    pairs.iter().map(|&(node, item)| ListItem { node, item }).collect()
}

fn nodes(state: &[ListItem<u64>]) -> Vec<u64> {
    state.iter().map(|r| r.node).collect()
}

fn items(state: &[ListItem<u64>]) -> Vec<u64> {
    state.iter().map(|r| r.item).collect()
}

#[test]
fn lcs_finds_longest_run() {
    let prev = records(&[(10, 1), (20, 2), (30, 3)]);
    let next: Vec<u64> = vec![2, 3];
    let (ps, ns, len) = lcs(&prev, 0, 3, &next, 0, 2);
    assert_eq!((ps, ns, len), (1, 0, 2));
}

#[test]
fn lcs_prefers_earliest_of_equal_runs() {
    let prev = records(&[(10, 1), (20, 2)]);
    let next: Vec<u64> = vec![2, 1];
    let (ps, ns, len) = lcs(&prev, 0, 2, &next, 0, 2);
    assert_eq!((ps, ns, len), (0, 1, 1));
}

#[test]
fn lcs_reports_no_match() {
    let prev = records(&[(10, 1), (20, 2)]);
    let next: Vec<u64> = vec![8, 9];
    let (ps, ns, len) = lcs(&prev, 0, 2, &next, 0, 2);
    assert_eq!((ps, ns, len), (0, 0, 0));
}

#[test]
fn lcs_respects_slice_bounds() {
    let prev = records(&[(10, 1), (20, 2), (30, 3)]);
    let next: Vec<u64> = vec![1, 2, 3];
    let (ps, ns, len) = lcs(&prev, 1, 3, &next, 0, 3);
    assert_eq!((ps, ns, len), (1, 1, 2));
}

#[test]
fn retains_common_subsequence() {
    // Previous items [A, B, C], next [A, C]: A and C keep their nodes, B is
    // destroyed, nothing is created.
    let prev = records(&[(10, 1), (20, 2), (30, 3)]);
    let next: Vec<u64> = vec![1, 3];
    let r = reconcile(&prev, &next, 100);
    assert_eq!(nodes(&r.state), vec![10, 30]);
    assert_eq!(items(&r.state), vec![1, 3]);
    assert!(r.created.is_empty());
    assert_eq!(r.destroyed, vec![20]);
    assert_eq!(r.next_id, 100);
}

#[test]
fn pure_insertion_creates_one_node() {
    // Previous [A, B], next [A, X, B]: both nodes retained, one node created
    // for X, standing between them.
    let prev = records(&[(10, 1), (20, 2)]);
    let next: Vec<u64> = vec![1, 7, 2];
    let r = reconcile(&prev, &next, 100);
    assert_eq!(nodes(&r.state), vec![10, 100, 20]);
    assert_eq!(items(&r.state), vec![1, 7, 2]);
    assert_eq!(r.created.len(), 1);
    assert_eq!(r.created[0].node, 100);
    assert_eq!(r.created[0].item, 7);
    assert!(r.destroyed.is_empty());
    assert_eq!(r.next_id, 101);
}

#[test]
fn reorder_of_two_items() {
    // Previous [A, B], next [B, A]: the matched run keeps A's node; B's
    // position cannot join the same ordered run, so its old node is
    // destroyed and a fresh one created. The final items are [B, A].
    let prev = records(&[(10, 1), (20, 2)]);
    let next: Vec<u64> = vec![2, 1];
    let r = reconcile(&prev, &next, 100);
    assert_eq!(items(&r.state), vec![2, 1]);
    assert_eq!(nodes(&r.state), vec![100, 10]);
    assert_eq!(r.created.len(), 1);
    assert_eq!(r.created[0].item, 2);
    assert_eq!(r.destroyed, vec![20]);
}

#[test]
fn total_replacement_destroys_and_creates_all() {
    // Previous [A, B], next [X, Y] with no equalities: both nodes destroyed,
    // two fresh nodes created.
    let prev = records(&[(10, 1), (20, 2)]);
    let next: Vec<u64> = vec![8, 9];
    let r = reconcile(&prev, &next, 100);
    assert_eq!(nodes(&r.state), vec![100, 101]);
    assert_eq!(items(&r.state), vec![8, 9]);
    assert_eq!(r.created.len(), 2);
    assert_eq!(r.destroyed, vec![10, 20]);
    assert_eq!(r.next_id, 102);
}

#[test]
fn unchanged_items_are_silent() {
    let prev = records(&[(10, 1), (20, 2), (30, 3)]);
    let next: Vec<u64> = vec![1, 2, 3];
    let r = reconcile(&prev, &next, 100);
    assert_eq!(nodes(&r.state), vec![10, 20, 30]);
    assert!(r.created.is_empty());
    assert!(r.destroyed.is_empty());
    assert_eq!(r.next_id, 100);
}

#[test]
fn growing_from_empty_creates_everything() {
    let prev: Vec<ListItem<u64>> = Vec::new();
    let next: Vec<u64> = vec![5, 6];
    let r = reconcile(&prev, &next, 1);
    assert_eq!(nodes(&r.state), vec![1, 2]);
    assert_eq!(r.created.len(), 2);
    assert!(r.destroyed.is_empty());
    assert_eq!(r.next_id, 3);
}

#[test]
fn shrinking_to_empty_destroys_everything() {
    let prev = records(&[(10, 1), (20, 2)]);
    let next: Vec<u64> = Vec::new();
    let r = reconcile(&prev, &next, 100);
    assert!(r.state.is_empty());
    assert!(r.created.is_empty());
    assert_eq!(r.destroyed, vec![10, 20]);
}

#[test]
fn duplicate_items_keep_first_node() {
    let prev = records(&[(10, 1), (20, 1)]);
    let next: Vec<u64> = vec![1];
    let r = reconcile(&prev, &next, 100);
    assert_eq!(nodes(&r.state), vec![10]);
    assert!(r.created.is_empty());
    assert_eq!(r.destroyed, vec![20]);
}

#[test]
fn appending_reuses_the_whole_prefix() {
    let prev = records(&[(10, 1), (20, 2)]);
    let next: Vec<u64> = vec![1, 2, 3];
    let r = reconcile(&prev, &next, 100);
    assert_eq!(nodes(&r.state), vec![10, 20, 100]);
    assert_eq!(r.created.len(), 1);
    assert_eq!(r.created[0].item, 3);
    assert!(r.destroyed.is_empty());
}

#[test]
fn nested_runs_are_found_recursively() {
    // The run [B, C] matches after the first run [A]; the margin between
    // them is reconciled on its own.
    let prev = records(&[(10, 1), (20, 2), (30, 3), (40, 4)]);
    let next: Vec<u64> = vec![1, 9, 3, 4];
    let r = reconcile(&prev, &next, 100);
    assert_eq!(items(&r.state), vec![1, 9, 3, 4]);
    assert_eq!(nodes(&r.state), vec![10, 100, 30, 40]);
    assert_eq!(r.created.len(), 1);
    assert_eq!(r.created[0].item, 9);
    assert_eq!(r.destroyed, vec![20]);
}

#[test]
fn signed_items_reconcile_the_same_way() {
    let prev: Vec<ListItem<i64>> = vec![
        ListItem { node: 10, item: -1 },
        ListItem { node: 20, item: 0 },
    ];
    let next: Vec<i64> = vec![-1, 5, 0];
    let r = reconcile(&prev, &next, 100);
    let nodes: Vec<u64> = r.state.iter().map(|x| x.node).collect();
    assert_eq!(nodes, vec![10, 100, 20]);
    assert_eq!(r.created.len(), 1);
    assert!(r.destroyed.is_empty());
}
