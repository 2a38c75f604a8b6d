use vstd::prelude::*;
use crate::item::{Item, total_value, total_weight, lemma_totals_concat};

verus! {

/// `a` may stand before `b` in the density order: a higher value per unit
/// of weight comes first, a weightless item counts as infinitely dense, and
/// equal densities go by ascending weight (weightless items by descending
/// value).
pub open spec fn precedes(a: Item, b: Item) -> bool {
    if a.weight == 0 && b.weight == 0 {
        a.value >= b.value
    } else if a.weight == 0 {
        true
    } else if b.weight == 0 {
        false
    } else {
        let ab = a.value as int * b.weight as int;
        let ba = b.value as int * a.weight as int;
        ab > ba || (ab == ba && a.weight <= b.weight)
    }
}

/// Every item may stand before every later one.
pub open spec fn density_ordered(s: Seq<Item>) -> bool {
    forall|a: int, b: int| 0 <= a < b < s.len() ==> precedes(#[trigger] s[a], #[trigger] s[b])
}

/// No later item dominates an earlier one: of two items of equal value the
/// earlier is no heavier, and of two of equal weight the earlier is worth no
/// less.
pub open spec fn no_later_dominates(s: Seq<Item>) -> bool {
    forall|a: int, b: int|
        0 <= a < b < s.len() ==> {
            &&& (#[trigger] s[a]).value == (#[trigger] s[b]).value ==> s[a].weight <= s[b].weight
            &&& s[a].weight == s[b].weight ==> s[a].value >= s[b].value
        }
}

/// Where `x` goes in `t` when the search for its place starts at `p`: past
/// every item that may stand before it.
pub open spec fn insert_position(t: Seq<Item>, x: Item, p: int) -> int
    decreases t.len() - p,
{
    if p >= t.len() {
        p
    } else if precedes(t[p], x) {
        insert_position(t, x, p + 1)
    } else {
        p
    }
}

/// The items of `s` in density order, each one inserted in turn after the
/// items that may stand before it.
pub open spec fn density_sorted(s: Seq<Item>) -> Seq<Item>
    decreases s.len(),
{
    if s.len() == 0 {
        s
    } else {
        let t = density_sorted(s.drop_last());
        t.insert(insert_position(t, s.last(), 0), s.last())
    }
}

proof fn lemma_scale(x: int, y: int, z: int)
    requires
        z > 0,
    ensures
        x > y <==> x * z > y * z,
        x == y <==> x * z == y * z,
{
    assert(x > y ==> x * z > y * z) by (nonlinear_arith)
        requires
            z > 0,
    ;
    assert(x * z > y * z ==> x > y) by (nonlinear_arith)
        requires
            z > 0,
    ;
    assert(x * z == y * z ==> x == y) by (nonlinear_arith)
        requires
            z > 0,
    ;
}

proof fn lemma_precedes_total(a: Item, b: Item)
    ensures
        precedes(a, b) || precedes(b, a),
{
}

proof fn lemma_precedes_transitive(a: Item, b: Item, c: Item)
    requires
        precedes(a, b),
        precedes(b, c),
    ensures
        precedes(a, c),
{
    if a.weight > 0 && b.weight > 0 && c.weight > 0 {
        let (va, vb, vc) = (a.value as int, b.value as int, c.value as int);
        let (wa, wb, wc) = (a.weight as int, b.weight as int, c.weight as int);
        lemma_scale(va * wb, vb * wa, wc);
        lemma_scale(vb * wc, vc * wb, wa);
        lemma_scale(va * wc, vc * wa, wb);
        assert(va * wb * wc == va * wc * wb) by (nonlinear_arith);
        assert(vb * wa * wc == vb * wc * wa) by (nonlinear_arith);
        assert(vc * wb * wa == vc * wa * wb) by (nonlinear_arith);
    }
}

proof fn lemma_precedes_no_domination(a: Item, b: Item)
    requires
        precedes(a, b),
    ensures
        a.value == b.value ==> a.weight <= b.weight,
        a.weight == b.weight ==> a.value >= b.value,
{
    if a.weight > 0 && b.weight > 0 {
        let (va, vb) = (a.value as int, b.value as int);
        let (wa, wb) = (a.weight as int, b.weight as int);
        if va == vb {
            assert(va * wb > vb * wa ==> wb > wa) by (nonlinear_arith)
                requires
                    va == vb,
                    va >= 0,
            ;
        }
        if wa == wb {
            lemma_scale(va, vb, wa);
        }
    }
}

/// A sequence in density order has no later item that dominates an earlier one.
pub proof fn lemma_ordered_no_later_dominates(s: Seq<Item>)
    requires
        density_ordered(s),
    ensures
        no_later_dominates(s),
{
    assert forall|a: int, b: int| 0 <= a < b < s.len() implies {
        &&& (#[trigger] s[a]).value == (#[trigger] s[b]).value ==> s[a].weight <= s[b].weight
        &&& s[a].weight == s[b].weight ==> s[a].value >= s[b].value
    } by {
        lemma_precedes_no_domination(s[a], s[b]);
    }
}

proof fn lemma_insert_position(t: Seq<Item>, x: Item, p: int)
    requires
        0 <= p <= t.len(),
    ensures
        p <= insert_position(t, x, p) <= t.len(),
        forall|k: int| p <= k < insert_position(t, x, p) ==> precedes(#[trigger] t[k], x),
        insert_position(t, x, p) < t.len() ==> !precedes(t[insert_position(t, x, p)], x),
    decreases t.len() - p,
{
    if p < t.len() && precedes(t[p], x) {
        lemma_insert_position(t, x, p + 1);
    }
}

proof fn lemma_insert_keeps_order(t: Seq<Item>, x: Item)
    requires
        density_ordered(t),
    ensures
        density_ordered(t.insert(insert_position(t, x, 0), x)),
{
    let p = insert_position(t, x, 0);
    lemma_insert_position(t, x, 0);
    let u = t.insert(p, x);
    assert forall|a: int, b: int| 0 <= a < b < u.len() implies precedes(
        #[trigger] u[a],
        #[trigger] u[b],
    ) by {
        if b < p {
            assert(precedes(t[a], t[b]));
        } else if b == p {
            assert(precedes(t[a], x));
        } else if a < p {
            assert(precedes(t[a], t[b - 1]));
        } else if a == p {
            lemma_precedes_total(t[p], x);
            if b - 1 > p {
                assert(precedes(t[p], t[b - 1]));
                lemma_precedes_transitive(x, t[p], t[b - 1]);
            }
        } else {
            assert(precedes(t[a - 1], t[b - 1]));
        }
    }
}

proof fn lemma_insert_totals(t: Seq<Item>, p: int, x: Item)
    requires
        0 <= p <= t.len(),
    ensures
        total_value(t.insert(p, x)) == total_value(t) + x.value,
        total_weight(t.insert(p, x)) == total_weight(t) + x.weight,
{
    let head = t.subrange(0, p);
    let tail = t.subrange(p, t.len() as int);
    assert(t =~= head + tail);
    assert(t.insert(p, x) =~= head.push(x) + tail);
    assert(head.push(x).drop_last() =~= head);
    lemma_totals_concat(head, tail);
    lemma_totals_concat(head.push(x), tail);
}

/// The density order is a permutation of the items, in density order, with
/// the same totals.
pub proof fn lemma_density_sorted(s: Seq<Item>)
    ensures
        density_ordered(density_sorted(s)),
        density_sorted(s).to_multiset() == s.to_multiset(),
        total_value(density_sorted(s)) == total_value(s),
        total_weight(density_sorted(s)) == total_weight(s),
    decreases s.len(),
{
    if s.len() > 0 {
        let t = density_sorted(s.drop_last());
        lemma_density_sorted(s.drop_last());
        lemma_insert_keeps_order(t, s.last());
        lemma_insert_position(t, s.last(), 0);
        let p = insert_position(t, s.last(), 0);
        vstd::seq_lib::to_multiset_insert(t, p, s.last());
        assert(s =~= s.drop_last().push(s.last()));
        vstd::seq_lib::to_multiset_build(s.drop_last(), s.last());
        lemma_insert_totals(t, p, s.last());
    }
}

/// Whether `a` may stand before `b` in the density order.
fn precedes_exec(a: &Item, b: &Item) -> (r: bool)
    ensures
        r == precedes(*a, *b),
{
    if a.weight == 0 && b.weight == 0 {
        a.value >= b.value
    } else if a.weight == 0 {
        true
    } else if b.weight == 0 {
        false
    } else {
        let (va, vb) = (a.value as u128, b.value as u128);
        let (wa, wb) = (a.weight as u128, b.weight as u128);
        assert(va * wb <= 0xffff_ffff_ffff_ffffu128 * 0xffff_ffff_ffff_ffffu128) by (nonlinear_arith)
            requires
                va <= 0xffff_ffff_ffff_ffffu128,
                wb <= 0xffff_ffff_ffff_ffffu128,
        ;
        assert(vb * wa <= 0xffff_ffff_ffff_ffffu128 * 0xffff_ffff_ffff_ffffu128) by (nonlinear_arith)
            requires
                vb <= 0xffff_ffff_ffff_ffffu128,
                wa <= 0xffff_ffff_ffff_ffffu128,
        ;
        let ab = va * wb;
        let ba = vb * wa;
        ab > ba || (ab == ba && a.weight <= b.weight)
    }
}

/// A copy of the items in density order: descending value per unit of
/// weight, with ties settled so that no later item dominates an earlier one.
pub fn sort_by_density(items: &[Item]) -> (r: Vec<Item>)
    ensures
        r@ == density_sorted(items@),
        density_ordered(r@),
        no_later_dominates(r@),
        r@.to_multiset() == items@.to_multiset(),
        total_value(r@) == total_value(items@),
        total_weight(r@) == total_weight(items@),
{
    let mut r: Vec<Item> = Vec::new();
    let mut k: usize = 0;
    while k < items.len()
        invariant
            k <= items@.len(),
            r@ == density_sorted(items@.subrange(0, k as int)),
        decreases items@.len() - k,
    {
        let x = items[k];
        let mut p: usize = 0;
        proof {
            lemma_insert_position(r@, x, 0);
        }
        while p < r.len() && precedes_exec(&r[p], &x)
            invariant
                p <= r@.len(),
                insert_position(r@, x, p as int) == insert_position(r@, x, 0),
            decreases r@.len() - p,
        {
            p = p + 1;
        }
        r.insert(p, x);
        proof {
            let s = items@.subrange(0, k + 1);
            assert(s.drop_last() =~= items@.subrange(0, k as int));
        }
        k = k + 1;
    }
    proof {
        assert(items@.subrange(0, items@.len() as int) =~= items@);
        lemma_density_sorted(items@);
        lemma_ordered_no_later_dominates(r@);
    }
    r
}

/// Item `b`, placed after item `a`, dominates it: equal value at a lower
/// weight, or equal weight at a higher value.
pub open spec fn dominates_earlier(a: Item, b: Item) -> bool {
    if a.value == b.value {
        a.weight > b.weight
    } else {
        a.weight == b.weight && a.value < b.value
    }
}

/// Pair `p` comes before pair `q` in lexicographic order.
pub open spec fn pair_before(p: (usize, usize), q: (usize, usize)) -> bool {
    p.0 < q.0 || (p.0 == q.0 && p.1 < q.1)
}

/// Pair `p` names two positions of `s`, the first before the second, where
/// the later item dominates the earlier one.
pub open spec fn is_blocking_violation(s: Seq<Item>, p: (usize, usize)) -> bool {
    &&& p.0 < p.1 < s.len()
    &&& dominates_earlier(s[p.0 as int], s[p.1 as int])
}

/// The pairs of positions `(i, j)`, `i < j`, where item `j` dominates item
/// `i`, in lexicographic order. An empty result means that no later item
/// dominates an earlier one.
pub fn confirm_blocking(items: &[Item]) -> (r: Vec<(usize, usize)>)
    ensures
        forall|p: (usize, usize)| r@.contains(p) <==> is_blocking_violation(items@, p),
        forall|a: int, b: int| 0 <= a < b < r@.len() ==> pair_before(r@[a], r@[b]),
        r@.len() == 0 <==> no_later_dominates(items@),
{
    let mut bad: Vec<(usize, usize)> = Vec::new();
    let n = items.len();
    let mut i: usize = 0;
    while i < n
        invariant
            n == items@.len(),
            i <= n,
            forall|p: (usize, usize)|
                bad@.contains(p) <==> (is_blocking_violation(items@, p) && p.0 < i),
            forall|a: int, b: int| 0 <= a < b < bad@.len() ==> pair_before(bad@[a], bad@[b]),
            forall|a: int| 0 <= a < bad@.len() ==> (#[trigger] bad@[a]).0 < i,
        decreases n - i,
    {
        let item_i = items[i];
        let mut j: usize = i + 1;
        while j < n
            invariant
                n == items@.len(),
                i < n,
                i + 1 <= j <= n,
                item_i == items@[i as int],
                forall|p: (usize, usize)|
                    bad@.contains(p) <==> (is_blocking_violation(items@, p) && (p.0 < i || (
                    p.0 == i && p.1 < j))),
                forall|a: int, b: int| 0 <= a < b < bad@.len() ==> pair_before(bad@[a], bad@[b]),
                forall|a: int| 0 <= a < bad@.len() ==> pair_before(#[trigger] bad@[a], (i, j)),
            decreases n - j,
        {
            let item_j = items[j];
            let violated = if item_i.value == item_j.value {
                item_i.weight > item_j.weight
            } else {
                item_i.weight == item_j.weight && item_i.value < item_j.value
            };
            if violated {
                let ghost old_bad = bad@;
                bad.push((i, j));
                proof {
                    assert forall|p: (usize, usize)| bad@.contains(p) <==> (
                    is_blocking_violation(items@, p) && (p.0 < i || (p.0 == i && p.1 < j + 1))) by {
                        if p == (i, j) {
                            assert(bad@[old_bad.len() as int] == p);
                        } else if bad@.contains(p) {
                            let k = choose|k: int| 0 <= k < bad@.len() && bad@[k] == p;
                            assert(old_bad[k] == p);
                        } else if old_bad.contains(p) {
                            let k = choose|k: int| 0 <= k < old_bad.len() && old_bad[k] == p;
                            assert(bad@[k] == p);
                        }
                    }
                }
            } else {
                proof {
                    assert forall|p: (usize, usize)| bad@.contains(p) <==> (
                    is_blocking_violation(items@, p) && (p.0 < i || (p.0 == i && p.1 < j + 1))) by {
                        if p == (i, j) {
                            assert(!is_blocking_violation(items@, p));
                        }
                    }
                }
            }
            j = j + 1;
        }
        i = i + 1;
    }
    proof {
        if bad@.len() == 0 {
            assert forall|a: int, b: int| 0 <= a < b < items@.len() implies {
                &&& (#[trigger] items@[a]).value == (#[trigger] items@[b]).value ==> items@[a].weight
                    <= items@[b].weight
                &&& items@[a].weight == items@[b].weight ==> items@[a].value >= items@[b].value
            } by {
                assert(!bad@.contains((a as usize, b as usize)));
            }
        } else {
            let p = bad@[0];
            assert(bad@.contains(p));
            let (a, b) = (p.0 as int, p.1 as int);
            if no_later_dominates(items@) {
                assert(items@[a].value == items@[b].value ==> items@[a].weight <= items@[b].weight);
                assert(items@[a].weight == items@[b].weight ==> items@[a].value >= items@[b].value);
            }
        }
    }
    bad
}

} // verus!
