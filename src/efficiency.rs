//! Ordering items by efficiency (value per unit of weight), compared
//! exactly by cross multiplication.

use vstd::prelude::*;
use crate::problem::Item;

verus! {

/// `a` is at least as efficient as `b`: `a.value / a.weight >= b.value / b.weight`.
pub open spec fn eff_ge(a: Item, b: Item) -> bool {
    a.value as int * b.weight as int >= b.value as int * a.weight as int
}

/// `order` names items from the most efficient to the least efficient.
pub open spec fn by_efficiency(items: Seq<Item>, order: Seq<usize>) -> bool {
    forall|i: int, j: int|
        0 <= i < j < order.len() ==> eff_ge(
            #[trigger] items[order[i] as int],
            #[trigger] items[order[j] as int],
        )
}

/// Every entry of `order` names an item of positive weight.
pub open spec fn names_weighted_items(items: Seq<Item>, order: Seq<usize>) -> bool {
    forall|k: int|
        0 <= k < order.len() ==> #[trigger] order[k] < items.len() && items[order[k] as int].weight
            > 0
}

/// Efficiency between items of positive weight is transitive.
pub proof fn lemma_eff_ge_transitive(a: Item, b: Item, c: Item)
    requires
        b.weight > 0,
        eff_ge(a, b),
        eff_ge(b, c),
    ensures
        eff_ge(a, c),
{
    let (av, aw, bv, bw, cv, cw) = (
        a.value as int,
        a.weight as int,
        b.value as int,
        b.weight as int,
        c.value as int,
        c.weight as int,
    );
    assert(av * bw * cw >= bv * aw * cw) by (nonlinear_arith)
        requires
            av * bw >= bv * aw,
            cw >= 0,
    ;
    assert(bv * cw * aw >= cv * bw * aw) by (nonlinear_arith)
        requires
            bv * cw >= cv * bw,
            aw >= 0,
    ;
    assert(av * cw >= cv * aw) by (nonlinear_arith)
        requires
            av * bw * cw >= bv * aw * cw,
            bv * cw * aw >= cv * bw * aw,
            bw > 0,
    ;
}

/// Exact comparison of efficiencies.
pub fn more_efficient_or_equal(a: &Item, b: &Item) -> (r: bool)
    ensures
        r == eff_ge(*a, *b),
{
    proof {
        lemma_word_product_fits(a.value, b.weight);
        lemma_word_product_fits(b.value, a.weight);
    }
    (a.value as u128) * (b.weight as u128) >= (b.value as u128) * (a.weight as u128)
}

/// The product of two machine words fits in 128 bits.
pub proof fn lemma_word_product_fits(x: usize, y: usize)
    ensures
        0 <= x as int * y as int <= u64::MAX as int * u64::MAX as int,
        x as int * y as int + 2 * u64::MAX as int <= u128::MAX,
{
    let (a, b) = (x as int, y as int);
    assert(a <= u64::MAX && b <= u64::MAX);
    assert(0 <= a * b <= u64::MAX as int * u64::MAX as int) by (nonlinear_arith)
        requires
            0 <= a <= u64::MAX,
            0 <= b <= u64::MAX,
    ;
    assert(u64::MAX as int * u64::MAX as int + 2 * u64::MAX as int <= u128::MAX) by (nonlinear_arith);
}

fn copy_range(v: &Vec<usize>, lo: usize, hi: usize) -> (r: Vec<usize>)
    requires
        lo <= hi <= v@.len(),
    ensures
        r@ == v@.subrange(lo as int, hi as int),
{
    let mut r: Vec<usize> = Vec::new();
    let mut i: usize = lo;
    while i < hi
        invariant
            lo <= i <= hi <= v@.len(),
            r@ == v@.subrange(lo as int, i as int),
        decreases hi - i,
    {
        r.push(v[i]);
        i = i + 1;
        assert(r@ =~= v@.subrange(lo as int, i as int));
    }
    r
}

/// Merges two lists that are each ordered by efficiency.
fn merge(items: &Vec<Item>, a: &Vec<usize>, b: &Vec<usize>) -> (r: Vec<usize>)
    requires
        names_weighted_items(items@, a@),
        names_weighted_items(items@, b@),
        by_efficiency(items@, a@),
        by_efficiency(items@, b@),
    ensures
        r@.to_multiset() == a@.to_multiset().add(b@.to_multiset()),
        by_efficiency(items@, r@),
        names_weighted_items(items@, r@),
{
    broadcast use vstd::seq_lib::group_to_multiset_ensures;
    broadcast use vstd::multiset::group_multiset_axioms;

    let ghost its = items@;
    let mut r: Vec<usize> = Vec::new();
    let mut i: usize = 0;
    let mut j: usize = 0;
    while i < a.len() || j < b.len()
        invariant
            its == items@,
            names_weighted_items(its, a@),
            names_weighted_items(its, b@),
            by_efficiency(its, a@),
            by_efficiency(its, b@),
            0 <= i <= a@.len(),
            0 <= j <= b@.len(),
            r@.to_multiset() == a@.take(i as int).to_multiset().add(b@.take(j as int).to_multiset()),
            r@.len() == i + j,
            by_efficiency(its, r@),
            names_weighted_items(its, r@),
            forall|m: int, k: int|
                0 <= m < r@.len() && i <= k < a@.len() ==> eff_ge(
                    #[trigger] its[r@[m] as int],
                    #[trigger] its[a@[k] as int],
                ),
            forall|m: int, k: int|
                0 <= m < r@.len() && j <= k < b@.len() ==> eff_ge(
                    #[trigger] its[r@[m] as int],
                    #[trigger] its[b@[k] as int],
                ),
        decreases a@.len() + b@.len() - i - j,
    {
        let take_a = j >= b.len() || (i < a.len() && more_efficient_or_equal(
            &items[a[i]],
            &items[b[j]],
        ));
        let ghost r0 = r@;
        if take_a {
            let x = a[i];
            r.push(x);
            proof {
                assert(a@.take(i + 1) =~= a@.take(i as int).push(x));
                assert(r@ =~= r0.push(x));
                vstd::seq_lib::to_multiset_build(r0, x);
                vstd::seq_lib::to_multiset_build(a@.take(i as int), x);
                assert(r@.to_multiset() =~= a@.take(i + 1).to_multiset().add(
                    b@.take(j as int).to_multiset(),
                ));
                lemma_append_keeps_order(its, r0, x);
                assert forall|m: int, k: int|
                    0 <= m < r@.len() && i + 1 <= k < a@.len() implies eff_ge(
                    #[trigger] its[r@[m] as int],
                    #[trigger] its[a@[k] as int],
                ) by {
                    assert(eff_ge(its[a@[i as int] as int], its[a@[k] as int]));
                    if m < r0.len() {
                        assert(r@[m] == r0[m]);
                    }
                }
                assert forall|m: int, k: int|
                    0 <= m < r@.len() && j <= k < b@.len() implies eff_ge(
                    #[trigger] its[r@[m] as int],
                    #[trigger] its[b@[k] as int],
                ) by {
                    if m < r0.len() {
                        assert(r@[m] == r0[m]);
                    } else {
                        if k > j {
                            assert(eff_ge(its[b@[j as int] as int], its[b@[k] as int]));
                            lemma_eff_ge_transitive(its[x as int], its[b@[j as int] as int], its[b@[k] as int]);
                        }
                    }
                }
            }
            i = i + 1;
        } else {
            let x = b[j];
            r.push(x);
            proof {
                assert(b@.take(j + 1) =~= b@.take(j as int).push(x));
                assert(r@ =~= r0.push(x));
                vstd::seq_lib::to_multiset_build(r0, x);
                vstd::seq_lib::to_multiset_build(b@.take(j as int), x);
                assert(r@.to_multiset() =~= a@.take(i as int).to_multiset().add(
                    b@.take(j + 1).to_multiset(),
                ));
                lemma_append_keeps_order(its, r0, x);
                assert forall|m: int, k: int|
                    0 <= m < r@.len() && j + 1 <= k < b@.len() implies eff_ge(
                    #[trigger] its[r@[m] as int],
                    #[trigger] its[b@[k] as int],
                ) by {
                    assert(eff_ge(its[b@[j as int] as int], its[b@[k] as int]));
                    if m < r0.len() {
                        assert(r@[m] == r0[m]);
                    }
                }
                assert forall|m: int, k: int|
                    0 <= m < r@.len() && i <= k < a@.len() implies eff_ge(
                    #[trigger] its[r@[m] as int],
                    #[trigger] its[a@[k] as int],
                ) by {
                    if m < r0.len() {
                        assert(r@[m] == r0[m]);
                    } else {
                        assert(eff_ge(its[x as int], its[a@[i as int] as int]));
                        if k > i {
                            assert(eff_ge(its[a@[i as int] as int], its[a@[k] as int]));
                            lemma_eff_ge_transitive(its[x as int], its[a@[i as int] as int], its[a@[k] as int]);
                        }
                    }
                }
            }
            j = j + 1;
        }
    }
    proof {
        assert(a@.take(a@.len() as int) =~= a@);
        assert(b@.take(b@.len() as int) =~= b@);
    }
    r
}

/// Appending an item that every listed item is at least as efficient as keeps
/// a list ordered by efficiency.
proof fn lemma_append_keeps_order(items: Seq<Item>, r: Seq<usize>, x: usize)
    requires
        by_efficiency(items, r),
        forall|m: int| 0 <= m < r.len() ==> eff_ge(#[trigger] items[r[m] as int], items[x as int]),
    ensures
        by_efficiency(items, r.push(x)),
{
    let r2 = r.push(x);
    assert forall|p: int, q: int| 0 <= p < q < r2.len() implies eff_ge(
        #[trigger] items[r2[p] as int],
        #[trigger] items[r2[q] as int],
    ) by {
        assert(r2[p] == r[p]);
        if q < r.len() {
            assert(r2[q] == r[q]);
        }
    }
}

/// Sorts item positions from the most efficient item to the least efficient.
pub fn sort_by_efficiency(items: &Vec<Item>, v: &Vec<usize>) -> (r: Vec<usize>)
    requires
        names_weighted_items(items@, v@),
    ensures
        r@.to_multiset() == v@.to_multiset(),
        by_efficiency(items@, r@),
        names_weighted_items(items@, r@),
    decreases v@.len(),
{
    broadcast use vstd::seq_lib::group_to_multiset_ensures;

    let n = v.len();
    if n <= 1 {
        let r = copy_range(v, 0, n);
        proof {
            assert(r@ =~= v@);
        }
        return r;
    }
    let mid = n / 2;
    let left = copy_range(v, 0, mid);
    let right = copy_range(v, mid, n);
    proof {
        assert(v@ =~= left@ + right@);
        vstd::seq_lib::lemma_multiset_commutative(left@, right@);
    }
    let sorted_left = sort_by_efficiency(items, &left);
    let sorted_right = sort_by_efficiency(items, &right);
    merge(items, &sorted_left, &sorted_right)
}

/// `order` lists every item exactly once, from the most to the least efficient.
pub open spec fn is_full_order(items: Seq<Item>, order: Seq<usize>) -> bool {
    &&& order.len() == items.len()
    &&& order.no_duplicates()
    &&& names_weighted_items(items, order)
    &&& by_efficiency(items, order)
}

/// All item positions, from the most efficient item to the least efficient.
pub fn all_by_efficiency(items: &Vec<Item>) -> (r: Vec<usize>)
    requires
        forall|i: int| 0 <= i < items@.len() ==> #[trigger] items@[i].weight > 0,
    ensures
        is_full_order(items@, r@),
{
    broadcast use vstd::seq_lib::group_to_multiset_ensures;

    let n = items.len();
    let mut all: Vec<usize> = Vec::new();
    let mut i: usize = 0;
    while i < n
        invariant
            n == items@.len(),
            forall|j: int| 0 <= j < items@.len() ==> #[trigger] items@[j].weight > 0,
            0 <= i <= n,
            all@.len() == i,
            forall|k: int| 0 <= k < i ==> #[trigger] all@[k] == k,
        decreases n - i,
    {
        all.push(i);
        i = i + 1;
    }
    proof {
        assert forall|k: int| 0 <= k < all@.len() implies #[trigger] all@[k] < items@.len()
            && items@[all@[k] as int].weight > 0 by {}
        assert(all@.no_duplicates());
    }
    let r = sort_by_efficiency(items, &all);
    proof {
        all@.lemma_multiset_has_no_duplicates();
        r@.lemma_multiset_has_no_duplicates_conv();
        vstd::seq_lib::to_multiset_len(all@);
        vstd::seq_lib::to_multiset_len(r@);
    }
    r
}

} // verus!
