//! The textbook dynamic program over (items, capacity), kept as a reference
//! solver for small instances.

use vstd::prelude::*;
use crate::problem::{
    all_selected, lemma_select_item, lemma_selection_bounds, lemma_sum_upto_le_total, none_selected,
    selected_value, selected_weight, sum_upto, values, weights, Item, Problem, Solution, SolveError,
};

verus! {

/// The largest table, in cells, that the dynamic program accepts.
pub const MAX_STATES: usize = 1000000;

/// The best value that the first `k` items reach within capacity `x`.
pub open spec fn best_value(items: Seq<Item>, k: int, x: int) -> int
    decreases k,
{
    if k <= 0 {
        0
    } else {
        let skip = best_value(items, k - 1, x);
        let it = items[k - 1];
        if it.weight <= x {
            let take = best_value(items, k - 1, x - it.weight) + it.value;
            if take > skip {
                take
            } else {
                skip
            }
        } else {
            skip
        }
    }
}

/// A `width` by `height` table of numbers, stored row by row.
struct Array {
    data: Vec<usize>,
    width: usize,
    height: usize,
}

proof fn lemma_cell_index(x: int, y: int, w: int, h: int)
    requires
        0 <= x < w,
        0 <= y < h,
    ensures
        0 <= y * w + x < w * h,
        y * w + x <= w * h - 1,
{
    assert(y * w + x < (y + 1) * w) by (nonlinear_arith)
        requires
            0 <= x < w,
    ;
    assert((y + 1) * w <= h * w) by (nonlinear_arith)
        requires
            y + 1 <= h,
            w >= 0,
    ;
    assert(0 <= y * w) by (nonlinear_arith)
        requires
            y >= 0,
            w >= 0,
    ;
    assert(h * w == w * h) by (nonlinear_arith);
}

proof fn lemma_cell_index_injective(x: int, y: int, xx: int, yy: int, w: int)
    requires
        0 <= x < w,
        0 <= xx < w,
        0 <= y,
        0 <= yy,
        y * w + x == yy * w + xx,
    ensures
        x == xx,
        y == yy,
{
    if y < yy {
        assert(y * w + x < (y + 1) * w) by (nonlinear_arith)
            requires
                0 <= x < w,
        ;
        assert((y + 1) * w <= yy * w) by (nonlinear_arith)
            requires
                y + 1 <= yy,
                w >= 0,
        ;
    } else if yy < y {
        assert(yy * w + xx < (yy + 1) * w) by (nonlinear_arith)
            requires
                0 <= xx < w,
        ;
        assert((yy + 1) * w <= y * w) by (nonlinear_arith)
            requires
                yy + 1 <= y,
                w >= 0,
        ;
    }
}

impl Array {
    spec fn wf(&self) -> bool {
        &&& self.width > 0
        &&& self.height > 0
        &&& self.data@.len() == self.width * self.height
        &&& self.data@.len() <= MAX_STATES
    }

    spec fn cell(&self, x: int, y: int) -> usize {
        self.data@[y * self.width + x]
    }

    /// A table of zeros; tables over `MAX_STATES` cells are refused.
    fn new(width: usize, height: usize) -> (r: Result<Array, SolveError>)
        requires
            width > 0,
            height > 0,
        ensures
            r is Err <==> width * height > MAX_STATES,
            r is Err ==> r == Err::<Array, SolveError>(SolveError::ProblemTooLarge),
            r matches Ok(a) ==> a.wf() && a.width == width && a.height == height && forall|x: int, y: int|
                0 <= x < width && 0 <= y < height ==> #[trigger] a.cell(x, y) == 0,
    {
        if width > MAX_STATES || height > MAX_STATES {
            proof {
                assert(width * height >= width && width * height >= height) by (nonlinear_arith)
                    requires
                        width >= 1,
                        height >= 1,
                ;
            }
            return Err(SolveError::ProblemTooLarge);
        }
        proof {
            assert(width * height <= MAX_STATES * MAX_STATES) by (nonlinear_arith)
                requires
                    width <= MAX_STATES,
                    height <= MAX_STATES,
            ;
        }
        let size = (width as u64) * (height as u64);
        if size > MAX_STATES as u64 {
            return Err(SolveError::ProblemTooLarge);
        }
        let size = size as usize;
        let a = Array { data: vec![0; size], width, height };
        proof {
            assert forall|x: int, y: int| 0 <= x < width && 0 <= y < height implies #[trigger] a.cell(x, y)
                == 0 by {
                lemma_cell_index(x, y, width as int, height as int);
            }
        }
        Ok(a)
    }

    fn index(&self, x: usize, y: usize) -> (r: usize)
        requires
            x < self.width,
            y * self.width + x <= usize::MAX,
        ensures
            r == y * self.width + x,
    {
        y * self.width + x
    }

    fn get(&self, x: usize, y: usize) -> (r: usize)
        requires
            self.wf(),
            x < self.width,
            y < self.height,
        ensures
            r == self.cell(x as int, y as int),
    {
        proof {
            lemma_cell_index(x as int, y as int, self.width as int, self.height as int);
        }
        let index = self.index(x, y);
        self.data[index]
    }

    fn set(&mut self, x: usize, y: usize, v: usize)
        requires
            old(self).wf(),
            x < old(self).width,
            y < old(self).height,
        ensures
            final(self).wf(),
            final(self).width == old(self).width,
            final(self).height == old(self).height,
            final(self).cell(x as int, y as int) == v,
            forall|xx: int, yy: int|
                0 <= xx < old(self).width && 0 <= yy < old(self).height && (xx != x || yy != y)
                    ==> #[trigger] final(self).cell(xx, yy) == old(self).cell(xx, yy),
    {
        proof {
            lemma_cell_index(x as int, y as int, self.width as int, self.height as int);
        }
        let index = self.index(x, y);
        self.data.set(index, v);
        proof {
            assert forall|xx: int, yy: int|
                0 <= xx < self.width && 0 <= yy < self.height && (xx != x || yy != y)
                    implies #[trigger] self.cell(xx, yy) == old(self).cell(xx, yy) by {
                lemma_cell_index(xx, yy, self.width as int, self.height as int);
                if yy * self.width + xx == y * self.width + x {
                    lemma_cell_index_injective(xx, yy, x as int, y as int, self.width as int);
                }
            }
        }
    }

    fn last(&self) -> (r: usize)
        requires
            self.wf(),
        ensures
            r == self.cell(self.width - 1, self.height - 1),
    {
        proof {
            let (w, h) = (self.width as int, self.height as int);
            lemma_cell_index(w - 1, h - 1, w, h);
            assert((h - 1) * w + w - 1 == w * h - 1) by (nonlinear_arith);
        }
        self.data[self.data.len() - 1]
    }
}

/// The best value of the first `k` items is at least zero and at most their
/// total value.
proof fn lemma_best_value_bounds(items: Seq<Item>, k: int, x: int)
    requires
        0 <= k <= items.len(),
    ensures
        0 <= best_value(items, k, x) <= sum_upto(values(items), all_selected(items.len()), k),
    decreases k,
{
    if k > 0 {
        lemma_best_value_bounds(items, k - 1, x);
        lemma_best_value_bounds(items, k - 1, x - items[k - 1].weight);
    }
}

/// No selection that fits into capacity `x` is worth more than the best value
/// that the dynamic program computes.
pub proof fn lemma_best_value_is_max(items: Seq<Item>, d: Seq<bool>, x: int)
    requires
        d.len() == items.len(),
        selected_weight(items, d) <= x,
    ensures
        selected_value(items, d) <= best_value(items, items.len() as int, x),
{
    lemma_best_value_is_max_upto(items, d, items.len() as int, x);
}

proof fn lemma_best_value_is_max_upto(items: Seq<Item>, d: Seq<bool>, k: int, x: int)
    requires
        d.len() == items.len(),
        0 <= k <= items.len(),
        sum_upto(weights(items), d, k) <= x,
    ensures
        sum_upto(values(items), d, k) <= best_value(items, k, x),
    decreases k,
{
    if k > 0 {
        let it = items[k - 1];
        crate::problem::lemma_sum_upto_nonneg(weights(items), d, k - 1);
        if d[k - 1] {
            lemma_best_value_is_max_upto(items, d, k - 1, x - it.weight);
        } else {
            lemma_best_value_is_max_upto(items, d, k - 1, x);
        }
    }
}

/// A selection of the first `k` items that reaches their best value within
/// capacity `x`.
proof fn best_value_witness(items: Seq<Item>, k: int, x: int) -> (d: Seq<bool>)
    requires
        0 <= k <= items.len(),
        x >= 0,
    ensures
        d.len() == items.len(),
        sum_upto(weights(items), d, k) <= x,
        sum_upto(values(items), d, k) == best_value(items, k, x),
        forall|i: int| k <= i < items.len() ==> !#[trigger] d[i],
    decreases k,
{
    if k == 0 {
        crate::problem::lemma_none_upto(weights(items), items.len(), 0);
        crate::problem::lemma_none_upto(values(items), items.len(), 0);
        none_selected(items.len())
    } else {
        let it = items[k - 1];
        let skip = best_value(items, k - 1, x);
        if it.weight <= x && best_value(items, k - 1, x - it.weight) + it.value > skip {
            let d0 = best_value_witness(items, k - 1, x - it.weight);
            let d = d0.update(k - 1, true);
            crate::problem::lemma_sum_upto_update(weights(items), d0, k - 1, k - 1, true);
            crate::problem::lemma_sum_upto_update(values(items), d0, k - 1, k - 1, true);
            d
        } else {
            let d0 = best_value_witness(items, k - 1, x);
            d0
        }
    }
}

/// A selection that fits and that no fitting selection beats is worth the
/// best value that the dynamic program computes.
pub proof fn lemma_optimum_is_best_value(items: Seq<Item>, capacity: int, d: Seq<bool>)
    requires
        capacity >= 0,
        crate::problem::feasible(items, capacity, d),
        forall|e: Seq<bool>|
            #[trigger] crate::problem::feasible(items, capacity, e) ==> selected_value(items, e)
                <= selected_value(items, d),
    ensures
        selected_value(items, d) == best_value(items, items.len() as int, capacity),
{
    lemma_best_value_is_max(items, d, capacity);
    let e = best_value_witness(items, items.len() as int, capacity);
    assert(crate::problem::feasible(items, capacity, e));
}

/// Solves the problem exactly with a table of `(capacity + 1) * (items + 1)`
/// cells, refusing tables over `MAX_STATES` cells with `ProblemTooLarge`.
/// The solution's value is the best value within the capacity.
pub fn solve(problem: &Problem) -> (r: Result<Solution, SolveError>)
    requires
        problem.sums_fit(),
    ensures
        r is Err <==> (problem.capacity + 1) * (problem.items@.len() + 1) > MAX_STATES,
        r is Err ==> r == Err::<Solution, SolveError>(SolveError::ProblemTooLarge),
        r matches Ok(sol) ==> sol.is_valid_for(problem) && sol.value == best_value(
            problem.items@,
            problem.items@.len() as int,
            problem.capacity as int,
        ),
{
    let ghost items = problem.items@;
    let n = problem.items.len();
    if problem.capacity >= MAX_STATES || n >= MAX_STATES {
        proof {
            let (c, m) = (problem.capacity as int + 1, n as int + 1);
            assert(c * m >= c && c * m >= m) by (nonlinear_arith)
                requires
                    c >= 1,
                    m >= 1,
            ;
        }
        return Err(SolveError::ProblemTooLarge);
    }
    let width = problem.capacity + 1;
    let height = n + 1;
    let mut sum_array = match Array::new(width, height) {
        Ok(a) => a,
        Err(e) => {
            return Err(e);
        },
    };
    let mut y: usize = 1;
    while y < height
        invariant
            items == problem.items@,
            n == items.len(),
            problem.sums_fit(),
            width == problem.capacity + 1,
            height == n + 1,
            sum_array.wf(),
            sum_array.width == width,
            sum_array.height == height,
            1 <= y <= height,
            forall|xx: int, yy: int|
                0 <= xx < width && 0 <= yy < y ==> #[trigger] sum_array.cell(xx, yy) == best_value(
                    items,
                    yy,
                    xx,
                ),
        decreases height - y,
    {
        let item = problem.items[y - 1];
        let mut x: usize = 0;
        while x < width
            invariant
                items == problem.items@,
                n == items.len(),
                problem.sums_fit(),
                width == problem.capacity + 1,
                height == n + 1,
                sum_array.wf(),
                sum_array.width == width,
                sum_array.height == height,
                1 <= y < height,
                item == items[y - 1],
                0 <= x <= width,
                forall|xx: int, yy: int|
                    0 <= xx < width && 0 <= yy < y ==> #[trigger] sum_array.cell(xx, yy) == best_value(
                        items,
                        yy,
                        xx,
                    ),
                forall|xx: int| 0 <= xx < x ==> #[trigger] sum_array.cell(xx, y as int) == best_value(items, y as int, xx),
            decreases width - x,
        {
            let do_not_take = sum_array.get(x, y - 1);
            let do_take = if item.weight <= x {
                proof {
                    lemma_best_value_bounds(items, y - 1, x - item.weight);
                    lemma_sum_upto_le_total(values(items), all_selected(n as nat), y as int);
                    crate::problem::lemma_selection_bounds(items, all_selected(n as nat));
                }
                sum_array.get(x - item.weight, y - 1) + item.value
            } else {
                0
            };
            let new_value = if do_take > do_not_take {
                do_take
            } else {
                do_not_take
            };
            proof {
                lemma_best_value_bounds(items, y - 1, x as int);
            }
            sum_array.set(x, y, new_value);
            x = x + 1;
        }
        y = y + 1;
    }
    let mut decision = vec![false; n];
    let mut x = problem.capacity;
    let mut y: usize = n;
    proof {
        assert(decision@ =~= none_selected(n as nat));
        crate::problem::lemma_sum_upto_le_total(weights(items), decision@, 0);
        crate::problem::lemma_none_selected_sums(items);
    }
    while y > 0
        invariant
            items == problem.items@,
            n == items.len(),
            width == problem.capacity + 1,
            height == n + 1,
            sum_array.wf(),
            sum_array.width == width,
            sum_array.height == height,
            forall|xx: int, yy: int|
                0 <= xx < width && 0 <= yy < height ==> #[trigger] sum_array.cell(xx, yy) == best_value(
                    items,
                    yy,
                    xx,
                ),
            0 <= y <= n,
            x <= problem.capacity,
            decision@.len() == n,
            forall|i: int| 0 <= i < y ==> !#[trigger] decision@[i],
            selected_weight(items, decision@) + x == problem.capacity,
            selected_value(items, decision@) + best_value(items, y as int, x as int) == best_value(
                items,
                n as int,
                problem.capacity as int,
            ),
        decreases y,
    {
        if sum_array.get(x, y) != sum_array.get(x, y - 1) {
            proof {
                lemma_select_item(items, decision@, y - 1);
            }
            decision.set(y - 1, true);
            x = x - problem.items[y - 1].weight;
        }
        y = y - 1;
    }
    let value = sum_array.last();
    Ok(Solution { decision, value, weight: problem.capacity - x })
}

} // verus!
