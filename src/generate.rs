//! Random instances: items with uniformly drawn values and weights, either
//! independent of each other or strongly correlated.

use vstd::prelude::*;
use rand::distributions::{Distribution, Uniform};
use crate::problem::{
    all_selected, lemma_sum_upto_prefix, sum_upto, total_weight, weights, Item, SolveError,
};

verus! {

/// Relies on rand's `Uniform::from(low..high)` sampled with the thread-local
/// generator `rand::thread_rng()`: a value in `low..high`. `Uniform::new`
/// panics when `low >= high`.
#[verifier::external_body]
fn sample_uniform(low: usize, high: usize) -> (r: usize)
    requires
        low < high,
    ensures
        low <= r < high,
{
    Uniform::from(low..high).sample(&mut rand::thread_rng())
}

/// `item_count` items with ids `0, 1, ...`, each with a value drawn from
/// `value_lower..value_upper` and, independently, a weight drawn from
/// `weight_lower..weight_upper`. Empty ranges and ranges that allow a zero
/// weight are refused with `InvalidInput`.
pub fn uncorrelated_items(
    item_count: usize,
    value_lower: usize,
    value_upper: usize,
    weight_lower: usize,
    weight_upper: usize,
) -> (r: Result<Vec<Item>, SolveError>)
    ensures
        r is Err <==> value_lower >= value_upper || weight_lower >= weight_upper || weight_lower == 0,
        r is Err ==> r == Err::<Vec<Item>, SolveError>(SolveError::InvalidInput),
        r matches Ok(items) ==> items@.len() == item_count && forall|i: int|
            0 <= i < item_count ==> (#[trigger] items@[i]).id == i && value_lower <= items@[i].value
                < value_upper && weight_lower <= items@[i].weight < weight_upper,
{
    if value_lower >= value_upper || weight_lower >= weight_upper || weight_lower == 0 {
        return Err(SolveError::InvalidInput);
    }
    let mut items: Vec<Item> = Vec::new();
    let mut id: usize = 0;
    while id < item_count
        invariant
            value_lower < value_upper,
            0 < weight_lower < weight_upper,
            0 <= id <= item_count,
            items@.len() == id,
            forall|i: int|
                0 <= i < id ==> (#[trigger] items@[i]).id == i && value_lower <= items@[i].value
                    < value_upper && weight_lower <= items@[i].weight < weight_upper,
        decreases item_count - id,
    {
        let value = sample_uniform(value_lower, value_upper);
        let weight = sample_uniform(weight_lower, weight_upper);
        items.push(Item::new(id, value, weight));
        id = id + 1;
    }
    Ok(items)
}

/// `item_count` items with ids `0, 1, ...`, each with a weight drawn from
/// `weight_lower..weight_upper` and a value `value_offset` above its weight.
/// Empty ranges, ranges that allow a zero weight, and values that would not
/// fit in a machine word are refused with `InvalidInput`.
pub fn strongly_correlated_items(
    item_count: usize,
    weight_lower: usize,
    weight_upper: usize,
    value_offset: usize,
) -> (r: Result<Vec<Item>, SolveError>)
    ensures
        r is Err <==> weight_lower >= weight_upper || weight_lower == 0 || weight_upper - 1
            + value_offset > usize::MAX,
        r is Err ==> r == Err::<Vec<Item>, SolveError>(SolveError::InvalidInput),
        r matches Ok(items) ==> items@.len() == item_count && forall|i: int|
            0 <= i < item_count ==> (#[trigger] items@[i]).id == i && weight_lower <= items@[i].weight
                < weight_upper && items@[i].value == items@[i].weight + value_offset,
{
    if weight_lower >= weight_upper || weight_lower == 0 {
        return Err(SolveError::InvalidInput);
    }
    if weight_upper - 1 > usize::MAX - value_offset {
        return Err(SolveError::InvalidInput);
    }
    let mut items: Vec<Item> = Vec::new();
    let mut id: usize = 0;
    while id < item_count
        invariant
            0 < weight_lower < weight_upper,
            weight_upper - 1 + value_offset <= usize::MAX,
            0 <= id <= item_count,
            items@.len() == id,
            forall|i: int|
                0 <= i < id ==> (#[trigger] items@[i]).id == i && weight_lower <= items@[i].weight
                    < weight_upper && items@[i].value == items@[i].weight + value_offset,
        decreases item_count - id,
    {
        let weight = sample_uniform(weight_lower, weight_upper);
        items.push(Item::new(id, weight + value_offset, weight));
        id = id + 1;
    }
    Ok(items)
}

/// The total weight of `items`, or `None` when it does not fit in a machine
/// word.
pub fn weight_sum(items: &Vec<Item>) -> (r: Option<usize>)
    ensures
        r is Some <==> total_weight(items@) <= usize::MAX,
        r matches Some(s) ==> s == total_weight(items@),
{
    let ghost ws = weights(items@);
    let ghost all = all_selected(items@.len());
    let mut sum: usize = 0;
    let mut i: usize = 0;
    while i < items.len()
        invariant
            ws == weights(items@),
            all == all_selected(items@.len()),
            0 <= i <= items@.len(),
            sum == sum_upto(ws, all, i as int),
        decreases items@.len() - i,
    {
        proof {
            lemma_sum_upto_prefix(ws, all, i + 1, items@.len() as int);
        }
        sum = match sum.checked_add(items[i].weight) {
            Some(s) => s,
            None => {
                return None;
            },
        };
        i = i + 1;
    }
    Some(sum)
}

} // verus!
