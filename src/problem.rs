//! The knapsack instance, its solutions, and sums over selections of items.

use vstd::prelude::*;

verus! {

/// One item of an instance. `id` is the caller's name for the item.
#[derive(Clone, Copy, Debug)]
pub struct Item {
    pub id: usize,
    pub value: usize,
    pub weight: usize,
}

impl Item {
    pub fn new(id: usize, value: usize, weight: usize) -> (r: Item)
        ensures
            r.id == id,
            r.value == value,
            r.weight == weight,
    {
        Item { id, value, weight }
    }
}

/// An instance: items and the knapsack's capacity.
pub struct Problem {
    pub items: Vec<Item>,
    pub capacity: usize,
}

/// A selection of items (`decision[i]` for the item at position `i`) with its
/// total value and weight.
pub struct Solution {
    pub decision: Vec<bool>,
    pub value: usize,
    pub weight: usize,
}

/// Why a solver or the reader refused its input.
#[derive(Clone, Copy, Debug, PartialEq, Eq, Structural)]
pub enum SolveError {
    /// Malformed input, or an item of zero weight.
    InvalidInput,
    /// The dynamic program would need more table cells than it allows.
    ProblemTooLarge,
    /// A solution failed its final check.
    SolutionInvalid,
}

/// Sum of `xs[i]` over the positions `i < n` that `d` selects.
pub open spec fn sum_upto(xs: Seq<int>, d: Seq<bool>, n: int) -> int
    decreases n,
{
    if n <= 0 {
        0
    } else {
        sum_upto(xs, d, n - 1) + if d[n - 1] {
            xs[n - 1]
        } else {
            0
        }
    }
}

/// Sum of `xs[i]` over all positions that `d` selects.
pub open spec fn selected_sum(xs: Seq<int>, d: Seq<bool>) -> int {
    sum_upto(xs, d, xs.len() as int)
}

pub open spec fn weights(items: Seq<Item>) -> Seq<int> {
    items.map_values(|it: Item| it.weight as int)
}

pub open spec fn values(items: Seq<Item>) -> Seq<int> {
    items.map_values(|it: Item| it.value as int)
}

/// Total weight of the items that `d` selects.
pub open spec fn selected_weight(items: Seq<Item>, d: Seq<bool>) -> int {
    selected_sum(weights(items), d)
}

/// Total value of the items that `d` selects.
pub open spec fn selected_value(items: Seq<Item>, d: Seq<bool>) -> int {
    selected_sum(values(items), d)
}

pub open spec fn all_selected(n: nat) -> Seq<bool> {
    Seq::new(n, |i: int| true)
}

pub open spec fn none_selected(n: nat) -> Seq<bool> {
    Seq::new(n, |i: int| false)
}

/// Weight of all items together.
pub open spec fn total_weight(items: Seq<Item>) -> int {
    selected_weight(items, all_selected(items.len()))
}

/// Value of all items together.
pub open spec fn total_value(items: Seq<Item>) -> int {
    selected_value(items, all_selected(items.len()))
}

/// A selection for `items` that fits into `capacity`.
pub open spec fn feasible(items: Seq<Item>, capacity: int, d: Seq<bool>) -> bool {
    d.len() == items.len() && selected_weight(items, d) <= capacity
}

/// Every sum of weights and every sum of values of `items` fits in a machine word.
pub open spec fn sums_fit_in_word(items: Seq<Item>) -> bool {
    total_weight(items) <= usize::MAX && total_value(items) <= usize::MAX
}

impl Problem {
    /// Every sum of weights and every sum of values fits in a machine word.
    pub open spec fn sums_fit(&self) -> bool {
        sums_fit_in_word(self.items@)
    }
}

impl Solution {
    /// The decision has one entry per item, its value and weight are those
    /// the solution reports, and it fits into the knapsack.
    pub open spec fn is_valid_for(&self, problem: &Problem) -> bool {
        &&& self.decision@.len() == problem.items@.len()
        &&& selected_value(problem.items@, self.decision@) == self.value
        &&& selected_weight(problem.items@, self.decision@) == self.weight
        &&& self.weight <= problem.capacity
    }

    /// Recomputes the value and weight of the decision and compares them
    /// with what the solution reports.
    pub fn validate(&self, problem: &Problem) -> (r: bool)
        requires
            problem.sums_fit(),
        ensures
            r == self.is_valid_for(problem),
    {
        if self.decision.len() != problem.items.len() {
            return false;
        }
        let n = problem.items.len();
        let ghost items = problem.items@;
        let ghost d = self.decision@;
        let mut value_sum: usize = 0;
        let mut weight_sum: usize = 0;
        let mut i: usize = 0;
        while i < n
            invariant
                n == items.len(),
                d.len() == n,
                items == problem.items@,
                d == self.decision@,
                problem.sums_fit(),
                0 <= i <= n,
                value_sum == sum_upto(values(items), d, i as int),
                weight_sum == sum_upto(weights(items), d, i as int),
            decreases n - i,
        {
            proof {
                lemma_sum_upto_le_total(values(items), d, i as int + 1);
                lemma_sum_upto_le_total(weights(items), d, i as int + 1);
            }
            if self.decision[i] {
                value_sum = value_sum + problem.items[i].value;
                weight_sum = weight_sum + problem.items[i].weight;
            }
            i = i + 1;
        }
        value_sum == self.value && weight_sum == self.weight && weight_sum <= problem.capacity
    }
}

/// Changing one entry of a selection changes its sum by that term alone.
pub proof fn lemma_sum_upto_update(xs: Seq<int>, d: Seq<bool>, n: int, i: int, x: bool)
    requires
        0 <= i < d.len(),
        n <= d.len(),
    ensures
        sum_upto(xs, d.update(i, x), n) == sum_upto(xs, d, n) + if i < n {
            (if x {
                xs[i]
            } else {
                0
            }) - (if d[i] {
                xs[i]
            } else {
                0
            })
        } else {
            0
        },
    decreases n,
{
    if n > 0 {
        lemma_sum_upto_update(xs, d, n - 1, i, x);
    }
}

/// Adding an unselected item to a selection adds its weight and value.
pub proof fn lemma_select_item(items: Seq<Item>, d: Seq<bool>, i: int)
    requires
        0 <= i < d.len() == items.len(),
        !d[i],
    ensures
        selected_weight(items, d.update(i, true)) == selected_weight(items, d) + items[i].weight,
        selected_value(items, d.update(i, true)) == selected_value(items, d) + items[i].value,
{
    lemma_sum_upto_update(weights(items), d, items.len() as int, i, true);
    lemma_sum_upto_update(values(items), d, items.len() as int, i, true);
}

/// Dropping a selected item from a selection subtracts its weight and value.
pub proof fn lemma_unselect_item(items: Seq<Item>, d: Seq<bool>, i: int)
    requires
        0 <= i < d.len() == items.len(),
        d[i],
    ensures
        selected_weight(items, d.update(i, false)) == selected_weight(items, d) - items[i].weight,
        selected_value(items, d.update(i, false)) == selected_value(items, d) - items[i].value,
{
    lemma_sum_upto_update(weights(items), d, items.len() as int, i, false);
    lemma_sum_upto_update(values(items), d, items.len() as int, i, false);
}

/// Weight and value of any selection lie between zero and the totals.
pub proof fn lemma_selection_bounds(items: Seq<Item>, d: Seq<bool>)
    requires
        d.len() == items.len(),
    ensures
        0 <= selected_weight(items, d) <= total_weight(items),
        0 <= selected_value(items, d) <= total_value(items),
{
    lemma_sum_upto_le_total(weights(items), d, items.len() as int);
    lemma_sum_upto_le_total(values(items), d, items.len() as int);
}

/// Selecting nothing weighs nothing and is worth nothing.
pub proof fn lemma_none_selected_sums(items: Seq<Item>)
    ensures
        selected_weight(items, none_selected(items.len())) == 0,
        selected_value(items, none_selected(items.len())) == 0,
{
    lemma_none_upto(weights(items), items.len(), items.len() as int);
    lemma_none_upto(values(items), items.len(), items.len() as int);
}

pub proof fn lemma_none_upto(xs: Seq<int>, n: nat, k: int)
    requires
        k <= n,
    ensures
        sum_upto(xs, none_selected(n), k) == 0,
    decreases k,
{
    if k > 0 {
        lemma_none_upto(xs, n, k - 1);
    }
}

/// A partial sum of nonnegative terms lies between zero and the sum of all terms.
pub proof fn lemma_sum_upto_le_total(xs: Seq<int>, d: Seq<bool>, n: int)
    requires
        0 <= n <= xs.len(),
        d.len() == xs.len(),
        forall|i: int| 0 <= i < xs.len() ==> xs[i] >= 0,
    ensures
        0 <= sum_upto(xs, d, n) <= selected_sum(xs, d),
        selected_sum(xs, d) <= selected_sum(xs, all_selected(xs.len())),
{
    lemma_sum_upto_prefix(xs, d, n, xs.len() as int);
    lemma_sum_upto_selection(xs, d, xs.len() as int);
}

/// Partial sums of nonnegative terms grow with the prefix.
pub proof fn lemma_sum_upto_prefix(xs: Seq<int>, d: Seq<bool>, n: int, m: int)
    requires
        0 <= n <= m <= xs.len(),
        m <= d.len(),
        forall|i: int| 0 <= i < xs.len() ==> xs[i] >= 0,
    ensures
        0 <= sum_upto(xs, d, n) <= sum_upto(xs, d, m),
    decreases m - n,
{
    if n < m {
        lemma_sum_upto_prefix(xs, d, n, m - 1);
    } else {
        lemma_sum_upto_nonneg(xs, d, n);
    }
}

pub proof fn lemma_sum_upto_nonneg(xs: Seq<int>, d: Seq<bool>, n: int)
    requires
        n <= xs.len(),
        n <= d.len(),
        forall|i: int| 0 <= i < xs.len() ==> xs[i] >= 0,
    ensures
        0 <= sum_upto(xs, d, n),
    decreases n,
{
    if n > 0 {
        lemma_sum_upto_nonneg(xs, d, n - 1);
    }
}

/// Selecting every item gives the largest partial sum of nonnegative terms.
pub proof fn lemma_sum_upto_selection(xs: Seq<int>, d: Seq<bool>, n: int)
    requires
        0 <= n <= xs.len(),
        n <= d.len(),
        forall|i: int| 0 <= i < xs.len() ==> xs[i] >= 0,
    ensures
        sum_upto(xs, d, n) <= sum_upto(xs, all_selected(xs.len()), n),
    decreases n,
{
    if n > 0 {
        lemma_sum_upto_selection(xs, d, n - 1);
    }
}

} // verus!
