//! The greedy heuristic: items in efficiency order, each taken when it still
//! fits strictly under the capacity.

use vstd::prelude::*;
use crate::efficiency::{all_by_efficiency, is_full_order};
use crate::problem::{
    lemma_select_item, lemma_selection_bounds, none_selected, selected_value, selected_weight, Item,
    Problem, Solution,
};

verus! {

/// The greedy pass over the first `k` entries of `order`: the selection and
/// its weight. An item is taken when the weight taken so far plus its own
/// stays strictly under the capacity.
pub open spec fn greedy_upto(items: Seq<Item>, order: Seq<usize>, capacity: int, k: int) -> (Seq<bool>, int)
    decreases k,
{
    if k <= 0 {
        (none_selected(items.len()), 0)
    } else {
        let (d, w) = greedy_upto(items, order, capacity, k - 1);
        let it = items[order[k - 1] as int];
        if w + it.weight < capacity {
            (d.update(order[k - 1] as int, true), w + it.weight)
        } else {
            (d, w)
        }
    }
}

/// The greedy selection along `order`.
pub open spec fn greedy_decision(items: Seq<Item>, order: Seq<usize>, capacity: int) -> Seq<bool> {
    greedy_upto(items, order, capacity, order.len() as int).0
}

/// Solves the problem greedily: the selection is the greedy pass along an
/// efficiency order of all items, and it fits into the knapsack.
pub fn solve(problem: &Problem) -> (r: Solution)
    requires
        problem.sums_fit(),
        forall|i: int| 0 <= i < problem.items@.len() ==> #[trigger] problem.items@[i].weight > 0,
    ensures
        r.is_valid_for(problem),
        exists|order: Seq<usize>|
            #[trigger] is_full_order(problem.items@, order) && r.decision@ == greedy_decision(
                problem.items@,
                order,
                problem.capacity as int,
            ),
{
    let ghost items = problem.items@;
    let ratios = all_by_efficiency(&problem.items);
    let n = problem.items.len();
    let mut decision = vec![false; n];
    let mut weight_sum: usize = 0;
    let mut value_sum: usize = 0;
    let mut k: usize = 0;
    proof {
        assert(decision@ =~= none_selected(n as nat));
        crate::problem::lemma_none_selected_sums(items);
    }
    while k < ratios.len()
        invariant
            items == problem.items@,
            n == items.len(),
            problem.sums_fit(),
            is_full_order(items, ratios@),
            0 <= k <= ratios@.len(),
            greedy_upto(items, ratios@, problem.capacity as int, k as int) == (decision@, weight_sum as int),
            decision@.len() == n,
            forall|i: int| 0 <= i < n && #[trigger] decision@[i] ==> ratios@.take(k as int).contains(i as usize),
            selected_weight(items, decision@) == weight_sum,
            selected_value(items, decision@) == value_sum,
            weight_sum <= problem.capacity,
        decreases ratios@.len() - k,
    {
        let index = ratios[k];
        let item = problem.items[index];
        let ghost d0 = decision@;
        proof {
            if d0[index as int] {
                let t = ratios@.take(k as int);
                let j = choose|j: int| 0 <= j < t.len() && #[trigger] t[j] == index;
                assert(ratios@[j] == ratios@[k as int]);
            }
            lemma_select_item(items, d0, index as int);
            lemma_selection_bounds(items, d0.update(index as int, true));
        }
        if weight_sum + item.weight < problem.capacity {
            weight_sum = weight_sum + item.weight;
            value_sum = value_sum + item.value;
            decision.set(index, true);
        }
        proof {
            let t1 = ratios@.take(k + 1);
            assert forall|i: int| 0 <= i < n && #[trigger] decision@[i] implies t1.contains(i as usize) by {
                if i == index {
                    assert(t1[k as int] == index);
                } else {
                    let t = ratios@.take(k as int);
                    let j = choose|j: int| 0 <= j < t.len() && #[trigger] t[j] == i as usize;
                    assert(t1[j] == i as usize);
                }
            }
        }
        k = k + 1;
    }
    Solution { decision, value: value_sum, weight: weight_sum }
}

} // verus!
