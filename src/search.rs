use vstd::prelude::*;
use crate::item::{
    Item,
    SearchResult,
    total_value,
    total_weight,
    picked,
    increasing_within,
    lemma_totals_prepend,
    suffix_value,
};
use crate::density::{density_sorted, sort_by_density, lemma_density_sorted};

verus! {

/// The best total value of a subset of `items[i..]` whose total weight is at
/// most `cap`: every item is either taken (when it still fits) or left out,
/// and the better of the two outcomes counts.
pub open spec fn best_value(items: Seq<Item>, i: int, cap: int) -> int
    decreases items.len() - i,
{
    if i < 0 || i >= items.len() {
        0
    } else {
        let skip = best_value(items, i + 1, cap);
        if items[i].weight <= cap {
            let take = items[i].value + best_value(items, i + 1, cap - items[i].weight);
            if take > skip {
                take
            } else {
                skip
            }
        } else {
            skip
        }
    }
}

/// The items from index `i` to the end.
pub open spec fn suffix(items: Seq<Item>, i: int) -> Seq<Item> {
    items.subrange(i, items.len() as int)
}

/// `res` extends `path` by indices from `[i, items.len())`, stays within
/// `limit`, and its totals are those of `weight` and `value` plus the items
/// that the extension picks.
pub open spec fn completes(
    items: Seq<Item>,
    i: int,
    limit: int,
    weight: int,
    value: int,
    path: Seq<usize>,
    res: SearchResult,
) -> bool {
    let ext = res.0@.subrange(path.len() as int, res.0@.len() as int);
    &&& path.len() <= res.0@.len()
    &&& res.0@.subrange(0, path.len() as int) == path
    &&& increasing_within(ext, i, items.len() as int)
    &&& res.1 == weight + total_weight(picked(items, ext))
    &&& res.2 == value + total_value(picked(items, ext))
    &&& res.1 <= limit
}

/// `res` is a selection from `items` within `limit` that no other selection
/// beats: its indices strictly increase and stay in bounds, its totals are
/// those of the items it picks, and its value is the best value.
pub open spec fn solves(items: Seq<Item>, limit: int, res: SearchResult) -> bool {
    &&& increasing_within(res.0@, 0, items.len() as int)
    &&& res.1 == total_weight(picked(items, res.0@))
    &&& res.2 == total_value(picked(items, res.0@))
    &&& res.1 <= limit
    &&& res.2 == best_value(items, 0, limit)
}

proof fn lemma_suffix_split(items: Seq<Item>, i: int)
    requires
        0 <= i < items.len(),
    ensures
        total_value(suffix(items, i)) == items[i].value + total_value(suffix(items, i + 1)),
{
    assert(suffix(items, i) =~= seq![items[i]] + suffix(items, i + 1));
    lemma_totals_prepend(items[i], suffix(items, i + 1));
}

/// The best value is never negative and never above the value of all the
/// items that remain.
pub proof fn lemma_best_value_bounds(items: Seq<Item>, i: int, cap: int)
    requires
        0 <= i <= items.len(),
    ensures
        0 <= best_value(items, i, cap) <= total_value(suffix(items, i)),
    decreases items.len() - i,
{
    if i == items.len() {
        assert(suffix(items, i) =~= Seq::<Item>::empty());
    } else {
        lemma_best_value_bounds(items, i + 1, cap);
        lemma_best_value_bounds(items, i + 1, cap - items[i].weight);
        lemma_suffix_split(items, i);
    }
}

/// No selection of items from `items[i..]` that fits in `cap` is worth more
/// than the best value.
pub proof fn lemma_best_value_is_upper_bound(
    items: Seq<Item>,
    i: int,
    cap: int,
    ext: Seq<usize>,
)
    requires
        0 <= i <= items.len(),
        increasing_within(ext, i, items.len() as int),
        total_weight(picked(items, ext)) <= cap,
    ensures
        total_value(picked(items, ext)) <= best_value(items, i, cap),
    decreases items.len() - i,
{
    if ext.len() == 0 {
        assert(picked(items, ext) =~= Seq::<Item>::empty());
        lemma_best_value_bounds(items, i, cap);
    } else if i == items.len() {
        assert(ext[0] < items.len());
    } else {
        let rest = ext.drop_first();
        assert(increasing_within(rest, i + 1, items.len() as int)) by {
            assert forall|k: int| 0 <= k < rest.len() implies i + 1 <= #[trigger] rest[k] by {
                assert(ext[0] < ext[k + 1]);
            }
        }
        if ext[0] == i {
            assert(picked(items, ext) =~= seq![items[i]] + picked(items, rest));
            lemma_totals_prepend(items[i], picked(items, rest));
            lemma_best_value_is_upper_bound(items, i + 1, cap - items[i].weight, rest);
        } else {
            assert(increasing_within(ext, i + 1, items.len() as int)) by {
                assert forall|k: int| 0 <= k < ext.len() implies i + 1 <= #[trigger] ext[k] by {
                    if k > 0 {
                        assert(ext[0] < ext[k]);
                    }
                }
            }
            lemma_best_value_is_upper_bound(items, i + 1, cap, ext);
        }
    }
}

/// The search below item `i`. `path` holds the indices already taken, of
/// total `weight` and `value`; `max_value` is the best value found on the
/// branches completed so far. A branch is followed only while taking every
/// remaining item could still beat `max_value`.
fn rods_technique_helper(
    items: &[Item],
    i: usize,
    limit_weight: usize,
    weight: usize,
    value: u64,
    max_value: u64,
    path: &[usize],
) -> (r: Result<SearchResult, ()>)
    requires
        i <= items@.len(),
        value + total_value(suffix(items@, i as int)) <= u64::MAX,
    ensures
        r matches Ok(res) ==> completes(
            items@,
            i as int,
            limit_weight as int,
            weight as int,
            value as int,
            path@,
            res,
        ),
        weight > limit_weight ==> r is Err,
        weight <= limit_weight && value + best_value(items@, i as int, limit_weight - weight)
            > max_value ==> (r matches Ok(res) && res.2 == value + best_value(
            items@,
            i as int,
            limit_weight - weight,
        )),
    decreases items@.len() - i,
{
    if weight > limit_weight {
        return Err(());
    }
    if i >= items.len() {
        let res: SearchResult = (vstd::slice::slice_to_vec(path), weight, value);
        proof {
            let ext = res.0@.subrange(path@.len() as int, res.0@.len() as int);
            assert(ext =~= Seq::<usize>::empty());
            assert(picked(items@, ext) =~= Seq::<Item>::empty());
            assert(res.0@.subrange(0, path@.len() as int) =~= path@);
        }
        return Ok(res);
    }
    let ghost n = items@.len() as int;
    let ghost cap = limit_weight - weight;
    let ghost item_i = items@[i as int];
    proof {
        lemma_suffix_split(items@, i as int);
        lemma_best_value_bounds(items@, i as int + 1, cap);
        lemma_best_value_bounds(items@, i as int + 1, cap - item_i.weight);
    }
    let mut best_seen: u64 = max_value;
    let mut left: Result<SearchResult, ()> = Err(());
    let remaining_value = suffix_value(items, i);
    if value + remaining_value > best_seen {
        let mut lpath: Vec<usize> = vstd::slice::slice_to_vec(path);
        lpath.push(i);
        let item = items[i];
        // A weight past `usize::MAX` is past the limit as well: that branch fails.
        if let Some(next_weight) = weight.checked_add(item.weight) {
            left = rods_technique_helper(
                items,
                i + 1,
                limit_weight,
                next_weight,
                value + item.value,
                best_seen,
                lpath.as_slice(),
            );
        }
        match left {
            Ok(ref t) => {
                if t.2 > best_seen {
                    best_seen = t.2;
                }
            },
            Err(_) => {},
        }
        proof {
            if left is Ok {
                let t = left->Ok_0;
                let ext1 = t.0@.subrange(lpath@.len() as int, t.0@.len() as int);
                let ext = t.0@.subrange(path@.len() as int, t.0@.len() as int);
                assert(t.0@.subrange(0, path@.len() as int) =~= path@) by {
                    assert(t.0@.subrange(0, path@.len() as int) =~= t.0@.subrange(
                        0,
                        lpath@.len() as int,
                    ).subrange(0, path@.len() as int));
                }
                assert(ext =~= seq![i] + ext1) by {
                    assert(t.0@[path@.len() as int] == t.0@.subrange(0, lpath@.len() as int)[path@.len() as int]);
                }
                assert(picked(items@, ext) =~= seq![item_i] + picked(items@, ext1));
                lemma_totals_prepend(item_i, picked(items@, ext1));
                assert(increasing_within(ext, i as int, n)) by {
                    assert forall|a: int, b: int| 0 <= a < b < ext.len() implies ext[a] < ext[b] by {
                        if a > 0 {
                            assert(ext1[a - 1] < ext1[b - 1]);
                        } else {
                            assert(i < ext1[b - 1]);
                        }
                    }
                }
            }
        }
    }
    let mut right: Result<SearchResult, ()> = Err(());
    let remaining_value = suffix_value(items, i + 1);
    if value + remaining_value > best_seen {
        right = rods_technique_helper(items, i + 1, limit_weight, weight, value, best_seen, path);
        proof {
            if right is Ok {
                let t = right->Ok_0;
                let ext1 = t.0@.subrange(path@.len() as int, t.0@.len() as int);
                assert(increasing_within(ext1, i as int, n));
            }
        }
    }
    proof {
        if left is Ok {
            let t = left->Ok_0;
            let ext = t.0@.subrange(path@.len() as int, t.0@.len() as int);
            lemma_best_value_is_upper_bound(items@, i as int, cap, ext);
        }
        if right is Ok {
            let t = right->Ok_0;
            let ext = t.0@.subrange(path@.len() as int, t.0@.len() as int);
            lemma_best_value_is_upper_bound(items@, i as int, cap, ext);
        }
    }
    match (left, right) {
        (Ok(lvalue), Ok(rvalue)) => {
            let best = if lvalue.2 > rvalue.2 {
                lvalue
            } else {
                rvalue
            };
            Ok(best)
        },
        (Ok(lvalue), Err(())) => Ok(lvalue),
        (Err(()), Ok(rvalue)) => Ok(rvalue),
        (Err(()), Err(())) => Err(()),
    }
}

/// The best selection of items whose total weight is at most `limit_weight`,
/// found by a branch-and-bound search over the items in density order. The
/// indices of the result refer to that order, `density_sorted(items@)`.
pub fn rods_technique(items: &[Item], limit_weight: usize) -> (r: Result<SearchResult, ()>)
    requires
        total_value(items@) <= u64::MAX,
    ensures
        r matches Ok(res) && solves(density_sorted(items@), limit_weight as int, res),
{
    let path: Vec<usize> = Vec::new();
    let density_sorted_items: Vec<Item> = sort_by_density(items);
    let ghost s = density_sorted_items@;
    proof {
        assert(suffix(s, 0) =~= s);
        lemma_best_value_bounds(s, 0, limit_weight as int);
    }
    let found = rods_technique_helper(
        density_sorted_items.as_slice(),
        0,
        limit_weight,
        0,
        0,
        0,
        path.as_slice(),
    );
    match found {
        Ok(res) => {
            proof {
                assert(res.0@.subrange(0, res.0@.len() as int) =~= res.0@);
                lemma_best_value_is_upper_bound(s, 0, limit_weight as int, res.0@);
            }
            Ok(res)
        },
        Err(()) => {
            // Nothing is worth more than the empty selection.
            let res: SearchResult = (Vec::new(), 0, 0);
            proof {
                assert(picked(s, res.0@) =~= Seq::<Item>::empty());
            }
            Ok(res)
        },
    }
}

/// Optimality: the selection found is worth at least as much as any other
/// selection of the same items that fits within the same limit.
pub proof fn lemma_result_is_optimal(
    items: Seq<Item>,
    limit: int,
    res: SearchResult,
    other: Seq<usize>,
)
    requires
        solves(items, limit, res),
        increasing_within(other, 0, items.len() as int),
        total_weight(picked(items, other)) <= limit,
    ensures
        total_value(picked(items, other)) <= res.2,
{
    lemma_best_value_is_upper_bound(items, 0, limit, other);
}

/// A larger capacity never lowers the best value.
pub proof fn lemma_best_value_monotonic(items: Seq<Item>, i: int, small: int, large: int)
    requires
        0 <= i <= items.len(),
        small <= large,
    ensures
        best_value(items, i, small) <= best_value(items, i, large),
    decreases items.len() - i,
{
    if i < items.len() {
        lemma_best_value_monotonic(items, i + 1, small, large);
        lemma_best_value_monotonic(items, i + 1, small - items[i].weight, large - items[i].weight);
    }
}

/// Monotonic capacity: for the same items, the search's value within a
/// smaller limit is never above its value within a larger one.
pub proof fn lemma_capacity_monotonic(
    items: Seq<Item>,
    small: int,
    large: int,
    res_small: SearchResult,
    res_large: SearchResult,
)
    requires
        small <= large,
        solves(density_sorted(items), small, res_small),
        solves(density_sorted(items), large, res_large),
    ensures
        res_small.2 <= res_large.2,
{
    lemma_best_value_monotonic(density_sorted(items), 0, small, large);
}

} // verus!
