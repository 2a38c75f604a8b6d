use vstd::prelude::*;

verus! {

/// An item that can be put in the knapsack.
#[derive(Clone, Copy, Debug, PartialEq, Eq)]
pub struct Item {
    pub value: u64,
    pub weight: usize,
}

/// A candidate solution: the chosen indices, their total weight and total value.
pub type SearchResult = (Vec<usize>, usize, u64);

/// Total value of a sequence of items.
pub open spec fn total_value(s: Seq<Item>) -> nat
    decreases s.len(),
{
    if s.len() == 0 {
        0
    } else {
        (total_value(s.drop_last()) + s.last().value) as nat
    }
}

/// Total weight of a sequence of items.
pub open spec fn total_weight(s: Seq<Item>) -> nat
    decreases s.len(),
{
    if s.len() == 0 {
        0
    } else {
        (total_weight(s.drop_last()) + s.last().weight) as nat
    }
}

/// The items that a sequence of indices picks out of `items`.
pub open spec fn picked(items: Seq<Item>, path: Seq<usize>) -> Seq<Item> {
    path.map_values(|j: usize| items[j as int])
}

/// Every index of `path` lies in `[lo, hi)` and the indices strictly increase.
pub open spec fn increasing_within(path: Seq<usize>, lo: int, hi: int) -> bool {
    &&& forall|k: int| 0 <= k < path.len() ==> lo <= #[trigger] path[k] < hi
    &&& forall|a: int, b: int| 0 <= a < b < path.len() ==> path[a] < path[b]
}

/// Totals are additive over concatenation.
pub proof fn lemma_totals_concat(a: Seq<Item>, b: Seq<Item>)
    ensures
        total_value(a + b) == total_value(a) + total_value(b),
        total_weight(a + b) == total_weight(a) + total_weight(b),
    decreases b.len(),
{
    if b.len() == 0 {
        assert(a + b =~= a);
    } else {
        lemma_totals_concat(a, b.drop_last());
        assert((a + b).drop_last() =~= a + b.drop_last());
    }
}

/// Totals of an item put in front of a sequence.
pub proof fn lemma_totals_prepend(x: Item, s: Seq<Item>)
    ensures
        total_value(seq![x] + s) == x.value + total_value(s),
        total_weight(seq![x] + s) == x.weight + total_weight(s),
{
    lemma_totals_concat(seq![x], s);
    assert(seq![x].drop_last() =~= Seq::<Item>::empty());
    assert(seq![x].last() == x);
    assert(total_value(Seq::<Item>::empty()) == 0);
    assert(total_weight(Seq::<Item>::empty()) == 0);
    assert(total_value(seq![x]) == x.value);
    assert(total_weight(seq![x]) == x.weight);
}

/// The total value of the items in `items[start..end)`, computed left to right.
fn range_value(items: &[Item], start: usize, end: usize) -> (r: u64)
    requires
        start <= end <= items@.len(),
        total_value(items@.subrange(start as int, end as int)) <= u64::MAX,
    ensures
        r == total_value(items@.subrange(start as int, end as int)),
{
    let mut acc: u64 = 0;
    let mut j: usize = start;
    while j < end
        invariant
            start <= j <= end <= items@.len(),
            total_value(items@.subrange(start as int, end as int)) <= u64::MAX,
            acc == total_value(items@.subrange(start as int, j as int)),
        decreases end - j,
    {
        proof {
            let s = items@.subrange(start as int, (j + 1) as int);
            assert(s.drop_last() =~= items@.subrange(start as int, j as int));
            lemma_totals_concat(s, items@.subrange((j + 1) as int, end as int));
            assert(s + items@.subrange((j + 1) as int, end as int) =~= items@.subrange(
                start as int,
                end as int,
            ));
        }
        acc = acc + items[j].value;
        j = j + 1;
    }
    acc
}

/// The total value of the items from `start` to the end.
pub fn suffix_value(items: &[Item], start: usize) -> (r: u64)
    requires
        start <= items@.len(),
        total_value(items@.subrange(start as int, items@.len() as int)) <= u64::MAX,
    ensures
        r == total_value(items@.subrange(start as int, items@.len() as int)),
{
    range_value(items, start, items.len())
}

/// The total value of all the items.
pub fn sum_values(items: &[Item]) -> (r: u64)
    requires
        total_value(items@) <= u64::MAX,
    ensures
        r == total_value(items@),
{
    assert(items@.subrange(0, items@.len() as int) =~= items@);
    range_value(items, 0, items.len())
}

/// The total weight of all the items.
pub fn sum_weights(items: &[Item]) -> (r: usize)
    requires
        total_weight(items@) <= usize::MAX,
    ensures
        r == total_weight(items@),
{
    let mut acc: usize = 0;
    let mut j: usize = 0;
    while j < items.len()
        invariant
            j <= items@.len(),
            total_weight(items@) <= usize::MAX,
            acc == total_weight(items@.subrange(0, j as int)),
        decreases items@.len() - j,
    {
        proof {
            let s = items@.subrange(0, (j + 1) as int);
            assert(s.drop_last() =~= items@.subrange(0, j as int));
            lemma_totals_concat(s, items@.subrange((j + 1) as int, items@.len() as int));
            assert(s + items@.subrange((j + 1) as int, items@.len() as int) =~= items@);
        }
        acc = acc + items[j].weight;
        j = j + 1;
    }
    assert(items@.subrange(0, items@.len() as int) =~= items@);
    acc
}

/// The items at the given indices, in the order of the indices.
pub fn select_items(items: &[Item], path: &[usize]) -> (r: Vec<Item>)
    requires
        forall|k: int| 0 <= k < path@.len() ==> #[trigger] path@[k] < items@.len(),
    ensures
        r@ == picked(items@, path@),
{
    let mut r: Vec<Item> = Vec::new();
    let mut k: usize = 0;
    while k < path.len()
        invariant
            k <= path@.len(),
            forall|m: int| 0 <= m < path@.len() ==> #[trigger] path@[m] < items@.len(),
            r@ =~= picked(items@, path@.subrange(0, k as int)),
        decreases path@.len() - k,
    {
        r.push(items[path[k]]);
        k = k + 1;
        assert(r@ =~= picked(items@, path@.subrange(0, k as int)));
    }
    assert(path@.subrange(0, path@.len() as int) =~= path@);
    r
}

/// The number in `[lo, hi]` that a random `draw` stands for.
pub open spec fn draw_in_range(draw: int, lo: int, hi: int) -> int {
    lo + draw % (hi - lo + 1)
}

fn scale_draw(draw: u64, lo: u64, hi: u64) -> (r: u64)
    requires
        lo <= hi,
    ensures
        r == draw_in_range(draw as int, lo as int, hi as int),
        lo <= r <= hi,
{
    let span: u128 = hi as u128 - lo as u128 + 1;
    let offset: u128 = draw as u128 % span;
    assert(0 <= offset < span) by (nonlinear_arith)
        requires
            offset == draw as u128 % span,
            span > 0,
    ;
    (lo as u128 + offset) as u64
}

/// Items made from random draws: item `k` takes its value from
/// `value_draws[k]` and its weight from `weight_draws[k]`, each brought into
/// its inclusive range.
pub fn make_items(
    value_draws: &[u64],
    weight_draws: &[u64],
    min_value: u64,
    max_value: u64,
    min_weight: usize,
    max_weight: usize,
) -> (r: Vec<Item>)
    requires
        value_draws@.len() == weight_draws@.len(),
        min_value <= max_value,
        min_weight <= max_weight,
    ensures
        r@.len() == value_draws@.len(),
        forall|k: int|
            0 <= k < r@.len() ==> {
                &&& (#[trigger] r@[k]).value == draw_in_range(
                    value_draws@[k] as int,
                    min_value as int,
                    max_value as int,
                )
                &&& r@[k].weight == draw_in_range(
                    weight_draws@[k] as int,
                    min_weight as int,
                    max_weight as int,
                )
            },
{
    let mut r: Vec<Item> = Vec::new();
    let mut k: usize = 0;
    while k < value_draws.len()
        invariant
            value_draws@.len() == weight_draws@.len(),
            min_value <= max_value,
            min_weight <= max_weight,
            k <= value_draws@.len(),
            r@.len() == k,
            forall|m: int|
                0 <= m < k ==> {
                    &&& (#[trigger] r@[m]).value == draw_in_range(
                        value_draws@[m] as int,
                        min_value as int,
                        max_value as int,
                    )
                    &&& r@[m].weight == draw_in_range(
                        weight_draws@[m] as int,
                        min_weight as int,
                        max_weight as int,
                    )
                },
        decreases value_draws@.len() - k,
    {
        let value = scale_draw(value_draws[k], min_value, max_value);
        let weight = scale_draw(weight_draws[k], min_weight as u64, max_weight as u64) as usize;
        r.push(Item { value, weight });
        k = k + 1;
    }
    r
}

} // verus!
