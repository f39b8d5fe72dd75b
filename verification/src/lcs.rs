use vstd::prelude::*;

use crate::items::ItemEq;
use crate::list::ListItem;
use crate::list::items_of;

verus! {

/// The length of the contiguous matched run that starts at `xs[i]` / `ys[j]`
/// and may extend up to (excluding) `xs[b]` / `ys[d]`: how many consecutive
/// aligned pairs satisfy the equality predicate.
pub open spec fn run_len<T: ItemEq>(xs: Seq<T>, ys: Seq<T>, i: int, j: int, b: int, d: int) -> nat
    decreases b - i,
{
    if 0 <= i && i < b && b <= xs.len() && 0 <= j && j < d && d <= ys.len() && xs[i].eq_spec(
        &ys[j],
    ) {
        1 + run_len(xs, ys, i + 1, j + 1, b, d)
    } else {
        0
    }
}

/// The aligned pair at offset `t` of the runs starting at `xs[i]` / `ys[j]`
/// satisfies the equality predicate.
pub open spec fn aligned_eq<T: ItemEq>(xs: Seq<T>, ys: Seq<T>, i: int, j: int, t: int) -> bool {
    xs[i + t].eq_spec(&ys[j + t])
}

/// Each aligned pair inside a matched run satisfies the equality predicate,
/// and the run stays inside its bounds.
pub proof fn lemma_run_len_props<T: ItemEq>(xs: Seq<T>, ys: Seq<T>, i: int, j: int, b: int, d: int)
    ensures
        run_len(xs, ys, i, j, b, d) > 0 ==> 0 <= i && i + run_len(xs, ys, i, j, b, d) <= b && b
            <= xs.len() && 0 <= j && j + run_len(xs, ys, i, j, b, d) <= d && d <= ys.len(),
        forall|t: int| 0 <= t < run_len(xs, ys, i, j, b, d) ==> #[trigger] aligned_eq(
            xs,
            ys,
            i,
            j,
            t,
        ),
    decreases b - i,
{
    let l = run_len(xs, ys, i, j, b, d);
    if l > 0 {
        lemma_run_len_props(xs, ys, i + 1, j + 1, b, d);
        assert forall|t: int| 0 <= t < l implies #[trigger] aligned_eq(xs, ys, i, j, t) by {
            if t == 0 {
                assert(xs[i + 0].eq_spec(&ys[j + 0]));
            } else {
                assert(aligned_eq(xs, ys, i + 1, j + 1, t - 1));
                assert(xs[(i + 1) + (t - 1)].eq_spec(&ys[(j + 1) + (t - 1)]));
                assert(xs[i + t].eq_spec(&ys[j + t]));
            }
        }
    }
}

/// A range whose aligned pairs all satisfy the equality predicate is one
/// matched run covering the whole range.
pub proof fn lemma_pointwise_run_len<T: ItemEq>(
    xs: Seq<T>,
    ys: Seq<T>,
    i: int,
    j: int,
    b: int,
    d: int,
)
    requires
        0 <= i <= b <= xs.len(),
        0 <= j <= d <= ys.len(),
        b - i == d - j,
        forall|t: int| 0 <= t < b - i ==> #[trigger] aligned_eq(xs, ys, i, j, t),
    ensures
        run_len(xs, ys, i, j, b, d) == b - i,
    decreases b - i,
{
    if i < b {
        assert(aligned_eq(xs, ys, i, j, 0));
        assert(xs[i + 0].eq_spec(&ys[j + 0]));
        assert forall|t: int| 0 <= t < b - (i + 1) implies #[trigger] aligned_eq(
            xs,
            ys,
            i + 1,
            j + 1,
            t,
        ) by {
            assert(aligned_eq(xs, ys, i, j, t + 1));
            assert(xs[i + (t + 1)].eq_spec(&ys[j + (t + 1)]));
            assert(xs[(i + 1) + t].eq_spec(&ys[(j + 1) + t]));
        }
        lemma_pointwise_run_len(xs, ys, i + 1, j + 1, b, d);
    }
}

/// The length of the matched run starting at the aligned pair
/// `prev[i]` / `next[j]`, bounded by `b` and `d`.
fn run_length_at<T: ItemEq + Copy>(
    prev: &Vec<ListItem<T>>,
    i: usize,
    b: usize,
    next: &Vec<T>,
    j: usize,
    d: usize,
) -> (t: usize)
    requires
        i <= b <= prev@.len(),
        j <= d <= next@.len(),
    ensures
        t == run_len(items_of(prev@), next@, i as int, j as int, b as int, d as int),
        i + t <= b,
        j + t <= d,
{
    let ghost xs = items_of(prev@);
    let ghost ys = next@;
    let mut t: usize = 0;
    while i + t < b && j + t < d && prev[i + t].item.item_eq(&next[j + t])
        invariant
            i <= b <= prev@.len(),
            j <= d <= next@.len(),
            xs == items_of(prev@),
            ys == next@,
            i + t <= b,
            j + t <= d,
            run_len(xs, ys, i as int, j as int, b as int, d as int) == t + run_len(
                xs,
                ys,
                i + t,
                j + t,
                b as int,
                d as int,
            ),
        decreases b - (i + t),
    {
        proof {
            assert(xs[i + t] == prev@[i + t].item);
            assert(run_len(xs, ys, i + t, j + t, b as int, d as int) == 1 + run_len(
                xs,
                ys,
                i + t + 1,
                j + t + 1,
                b as int,
                d as int,
            ));
        }
        t = t + 1;
    }
    proof {
        if i + t < b && j + t < d {
            assert(xs[i + t] == prev@[i + t].item);
        }
        assert(run_len(xs, ys, i + t, j + t, b as int, d as int) == 0);
    }
    t
}

/// Finds the longest contiguous matched run between the record slice
/// `prev[a..b)` and the item slice `next[c..d)`, comparing a record's item
/// with a candidate item. Returns the absolute start offset in each slice and
/// the run's length; with no match anywhere the length is zero and the
/// offsets are the range starts.
///
/// Among runs of maximal length, the one with the lowest start in `prev`,
/// then the lowest start in `next`, wins.
pub fn lcs<T: ItemEq + Copy>(
    prev: &Vec<ListItem<T>>,
    a: usize,
    b: usize,
    next: &Vec<T>,
    c: usize,
    d: usize,
) -> (r: (usize, usize, usize))
    requires
        a <= b <= prev@.len(),
        c <= d <= next@.len(),
    ensures
        ({
            let xs = items_of(prev@);
            let ys = next@;
            &&& r.2 == 0 ==> r.0 == a && r.1 == c
            &&& a <= r.0 && r.0 + r.2 <= b
            &&& c <= r.1 && r.1 + r.2 <= d
            &&& run_len(xs, ys, r.0 as int, r.1 as int, b as int, d as int) == r.2
            &&& forall|i: int, j: int|
                a <= i && c <= j ==> run_len(xs, ys, i, j, b as int, d as int) <= r.2
        }),
{
    let ghost xs = items_of(prev@);
    let ghost ys = next@;
    let mut best_i: usize = a;
    let mut best_j: usize = c;
    let mut best: usize = 0;
    let mut i: usize = a;
    while i < b
        invariant
            a <= i <= b <= prev@.len(),
            c <= d <= next@.len(),
            xs == items_of(prev@),
            ys == next@,
            best == 0 ==> best_i == a && best_j == c,
            a <= best_i && best_i + best <= b,
            c <= best_j && best_j + best <= d,
            run_len(xs, ys, best_i as int, best_j as int, b as int, d as int) >= best,
            forall|i2: int, j2: int|
                a <= i2 < i && c <= j2 ==> run_len(xs, ys, i2, j2, b as int, d as int) <= best,
        decreases b - i,
    {
        let mut j: usize = c;
        while j < d
            invariant
                a <= i < b <= prev@.len(),
                c <= j <= d <= next@.len(),
                xs == items_of(prev@),
                ys == next@,
                best == 0 ==> best_i == a && best_j == c,
                a <= best_i && best_i + best <= b,
                c <= best_j && best_j + best <= d,
                run_len(xs, ys, best_i as int, best_j as int, b as int, d as int) >= best,
                forall|i2: int, j2: int|
                    a <= i2 < i && c <= j2 ==> run_len(xs, ys, i2, j2, b as int, d as int) <= best,
                forall|j2: int|
                    c <= j2 < j ==> run_len(xs, ys, i as int, j2, b as int, d as int) <= best,
            decreases d - j,
        {
            let t = run_length_at(prev, i, b, next, j, d);
            if t > best {
                best_i = i;
                best_j = j;
                best = t;
            }
            j = j + 1;
        }
        proof {
            assert forall|j2: int| c <= j2 implies run_len(xs, ys, i as int, j2, b as int, d as int)
                <= best by {
                if j2 >= d {
                    assert(run_len(xs, ys, i as int, j2, b as int, d as int) == 0);
                }
            }
        }
        i = i + 1;
    }
    proof {
        assert forall|i2: int, j2: int| a <= i2 && c <= j2 implies run_len(
            xs,
            ys,
            i2,
            j2,
            b as int,
            d as int,
        ) <= best by {
            if i2 >= b {
                assert(run_len(xs, ys, i2, j2, b as int, d as int) == 0);
            }
        }
        assert(run_len(xs, ys, best_i as int, best_j as int, b as int, d as int) <= best);
    }
    (best_i, best_j, best)
}

} // verus!
