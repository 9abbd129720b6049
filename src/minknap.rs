//! Pisinger's MinKnap: starting from the break solution, the core of items
//! whose decisions may change grows outward from the break item, one item at
//! a time, alternately to the right and to the left. A frontier of
//! undominated states is kept, pruned by linear-relaxation bounds, and each
//! state carries its decision history as a crumb. The search stops when the
//! core spans all items, when no state is left, or when the best state fills
//! the knapsack exactly.
//!
//! Each state stands for a selection whose weight and profit it carries
//! (`state_ok`), and every selection that beats the lower bound stays matched
//! by some state on the core (`search_ok`): pruning by bound, by dominance
//! and by `max_state_weight` never loses one. Hence the result is optimal
//! unless the search stopped at an exact fill.

use vstd::prelude::*;
use crate::efficiency::{
    by_efficiency, eff_ge, lemma_word_product_fits, names_weighted_items, sort_by_efficiency,
};
use crate::sol_tree::{apply_flips, history, tree_wf, SolCrumb, SolTree};
use crate::problem::{
    lemma_select_item, lemma_selection_bounds, selected_value, selected_weight, Item, Problem,
    Solution, SolveError,
};

verus! {

/// `a / b` rounded up, for `b > 0`.
pub open spec fn ceil_div(a: int, b: int) -> int {
    (a + b - 1) / b
}

/// `order` lists, without repetition and from the most to the least efficient,
/// exactly the items that fit into the knapsack on their own; all of them
/// have positive weight.
pub open spec fn is_core_order(items: Seq<Item>, capacity: int, order: Seq<usize>) -> bool {
    &&& order.no_duplicates()
    &&& names_weighted_items(items, order)
    &&& by_efficiency(items, order)
    &&& forall|i: int|
        0 <= i < items.len() ==> (#[trigger] order.contains(i as usize) <==> items[i].weight
            <= capacity)
}

/// Weight of the first `k` items of `order`.
pub open spec fn prefix_weight(items: Seq<Item>, order: Seq<usize>, k: int) -> int
    decreases k,
{
    if k <= 0 {
        0
    } else {
        prefix_weight(items, order, k - 1) + items[order[k - 1] as int].weight
    }
}

/// Value of the first `k` items of `order`.
pub open spec fn prefix_value(items: Seq<Item>, order: Seq<usize>, k: int) -> int
    decreases k,
{
    if k <= 0 {
        0
    } else {
        prefix_value(items, order, k - 1) + items[order[k - 1] as int].value
    }
}

/// The break item: the first position of `order` whose item, added to the
/// items before it, no longer stays strictly under the capacity (or
/// `order.len()` when every item does).
pub open spec fn is_break_item(items: Seq<Item>, order: Seq<usize>, capacity: int, b: int) -> bool {
    &&& 0 <= b <= order.len()
    &&& forall|j: int|
        0 <= j < b ==> #[trigger] prefix_weight(items, order, j) + items[order[j] as int].weight
            < capacity
    &&& b < order.len() ==> prefix_weight(items, order, b) + items[order[b] as int].weight
        >= capacity
}

/// The linear-relaxation bound of the break solution: its profit plus the
/// break item taken fractionally into the remaining capacity.
pub open spec fn linear_profit(items: Seq<Item>, order: Seq<usize>, capacity: int, b: int) -> int {
    if b < order.len() {
        prefix_value(items, order, b) + ceil_div(
            (capacity - prefix_weight(items, order, b)) * items[order[b] as int].value,
            items[order[b] as int].weight as int,
        )
    } else {
        prefix_value(items, order, b)
    }
}

/// The break solution in efficiency order.
pub struct BreakSolution {
    pub break_item: usize,
    pub profit: usize,
    pub weight: usize,
    pub linear_profit: usize,
}

/// Lists the items that fit into the knapsack on their own, most efficient
/// first. An item of zero weight is refused.
fn efficiency_ordering(problem: &Problem) -> (r: Result<Vec<usize>, SolveError>)
    ensures
        r is Err <==> exists|i: int| 0 <= i < problem.items@.len() && #[trigger] problem.items@[i].weight == 0,
        r is Err ==> r == Err::<Vec<usize>, SolveError>(SolveError::InvalidInput),
        r matches Ok(order) ==> is_core_order(problem.items@, problem.capacity as int, order@),
{
    broadcast use vstd::seq_lib::group_to_multiset_ensures;

    let ghost items = problem.items@;
    let n = problem.items.len();
    let mut candidates: Vec<usize> = Vec::new();
    let mut i: usize = 0;
    while i < n
        invariant
            n == items.len(),
            items == problem.items@,
            0 <= i <= n,
            forall|j: int| 0 <= j < i ==> #[trigger] items[j].weight != 0,
            forall|k: int| 0 <= k < candidates@.len() ==> #[trigger] candidates@[k] < i,
            forall|k: int, l: int| 0 <= k < l < candidates@.len() ==> candidates@[k] < candidates@[l],
            names_weighted_items(items, candidates@),
            forall|j: int|
                0 <= j < i ==> (#[trigger] candidates@.contains(j as usize) <==> items[j].weight
                    <= problem.capacity),
        decreases n - i,
    {
        let item = problem.items[i];
        if item.weight <= problem.capacity {
            if item.weight == 0 {
                return Err(SolveError::InvalidInput);
            }
            let ghost c0 = candidates@;
            candidates.push(i);
            proof {
                assert forall|j: int| 0 <= j <= i implies (#[trigger] candidates@.contains(j as usize)
                    <==> items[j].weight <= problem.capacity) by {
                    if j < i && c0.contains(j as usize) {
                        let k = choose|k: int| 0 <= k < c0.len() && c0[k] == j as usize;
                        assert(candidates@[k] == j as usize);
                    }
                    if candidates@.contains(j as usize) && j < i {
                        let k = choose|k: int| 0 <= k < candidates@.len() && candidates@[k] == j as usize;
                        assert(k < c0.len());
                        assert(c0[k] == j as usize);
                    }
                    if j == i {
                        assert(candidates@[c0.len() as int] == i);
                    }
                }
            }
        } else {
            proof {
                assert forall|j: int| 0 <= j <= i implies (#[trigger] candidates@.contains(j as usize)
                    <==> items[j].weight <= problem.capacity) by {
                    if j == i && candidates@.contains(j as usize) {
                        let k = choose|k: int| 0 <= k < candidates@.len() && candidates@[k] == j as usize;
                    }
                }
            }
        }
        i = i + 1;
    }
    let order = sort_by_efficiency(&problem.items, &candidates);
    proof {
        assert(candidates@.no_duplicates()) by {
            assert forall|k: int, l: int| 0 <= k < candidates@.len() && 0 <= l < candidates@.len() && k != l
                implies candidates@[k] != candidates@[l] by {
                if k < l {
                    assert(candidates@[k] < candidates@[l]);
                } else {
                    assert(candidates@[l] < candidates@[k]);
                }
            }
        }
        candidates@.lemma_multiset_has_no_duplicates();
        order@.lemma_multiset_has_no_duplicates_conv();
        assert forall|j: int| 0 <= j < items.len() implies (#[trigger] order@.contains(j as usize)
            <==> items[j].weight <= problem.capacity) by {
            assert(candidates@.contains(j as usize) <==> candidates@.to_multiset().count(j as usize) > 0);
            assert(order@.contains(j as usize) <==> order@.to_multiset().count(j as usize) > 0);
        }
    }
    Ok(order)
}

/// The break decision of the first `b` items of `order`: exactly those are taken.
pub open spec fn break_decision(n: nat, order: Seq<usize>, b: int) -> Seq<bool> {
    Seq::new(n, |i: int| order.take(b).contains(i as usize))
}

/// Takes items in efficiency order while their total weight stays strictly
/// under the capacity, and marks them in `decision`.
fn break_solution(problem: &Problem, order: &Vec<usize>, decision: &mut Vec<bool>) -> (r:
    BreakSolution)
    requires
        is_core_order(problem.items@, problem.capacity as int, order@),
        problem.sums_fit(),
        old(decision)@ == crate::problem::none_selected(problem.items@.len()),
    ensures
        is_break_item(problem.items@, order@, problem.capacity as int, r.break_item as int),
        r.profit == prefix_value(problem.items@, order@, r.break_item as int),
        r.weight == prefix_weight(problem.items@, order@, r.break_item as int),
        r.weight <= problem.capacity,
        r.linear_profit == linear_profit(
            problem.items@,
            order@,
            problem.capacity as int,
            r.break_item as int,
        ),
        final(decision)@ == break_decision(problem.items@.len(), order@, r.break_item as int),
        selected_weight(problem.items@, final(decision)@) == r.weight,
        selected_value(problem.items@, final(decision)@) == r.profit,
{
    let ghost items = problem.items@;
    let n_items = problem.items.len();
    let ghost n = items.len();
    let item_count = order.len();
    let capacity = problem.capacity;
    let mut profit_sum: usize = 0;
    let mut weight_sum: usize = 0;
    let mut i: usize = 0;
    let mut done = false;
    proof {
        assert(decision@ =~= break_decision(n, order@, 0));
        crate::problem::lemma_none_selected_sums(items);
    }
    while i < item_count && !done
        invariant
            items == problem.items@,
            n == items.len(),
            n == n_items,
            capacity == problem.capacity,
            problem.sums_fit(),
            is_core_order(items, capacity as int, order@),
            item_count == order@.len(),
            0 <= i <= item_count,
            decision@ == break_decision(n, order@, i as int),
            profit_sum == prefix_value(items, order@, i as int),
            weight_sum == prefix_weight(items, order@, i as int),
            selected_weight(items, decision@) == weight_sum,
            selected_value(items, decision@) == profit_sum,
            weight_sum <= capacity,
            forall|j: int|
                0 <= j < i ==> #[trigger] prefix_weight(items, order@, j) + items[order@[j] as int].weight
                    < capacity,
            done ==> i < item_count && weight_sum + items[order@[i as int] as int].weight >= capacity,
        decreases item_count - i + if done { 0int } else { 1int },
    {
        let index = order[i];
        let item = problem.items[index];
        let ghost d0 = decision@;
        proof {
            assert(order@[i as int] < n);
            lemma_break_decision_step(n, order@, i as int);
            assert(!d0[index as int]);
            lemma_select_item(items, d0, index as int);
            lemma_selection_bounds(items, d0.update(index as int, true));
        }
        if item.weight + weight_sum < capacity {
            profit_sum = profit_sum + item.value;
            weight_sum = weight_sum + item.weight;
            decision.set(index, true);
            i = i + 1;
        } else {
            done = true;
        }
    }
    let linear = if i < item_count {
        let item = problem.items[order[i]];
        let remaining = (capacity - weight_sum) as u128;
        proof {
            let (rem, v, w) = (remaining as int, item.value as int, item.weight as int);
            lemma_word_product_fits((capacity - weight_sum) as usize, item.value);
            assert(rem <= w);
            assert(0 <= ceil_div(rem * v, w) <= v) by (nonlinear_arith)
                requires
                    0 <= rem <= w,
                    w > 0,
                    v >= 0,
            ;
            lemma_break_decision_step(n, order@, i as int);
            lemma_select_item(items, decision@, order@[i as int] as int);
            lemma_selection_bounds(items, decision@.update(order@[i as int] as int, true));
        }
        let extra = (remaining * (item.value as u128) + (item.weight as u128) - 1) / (item.weight as u128);
        profit_sum + extra as usize
    } else {
        profit_sum
    };
    BreakSolution { break_item: i, profit: profit_sum, weight: weight_sum, linear_profit: linear }
}

/// Taking one more item of `order` into the break decision sets exactly its entry.
proof fn lemma_break_decision_step(n: nat, order: Seq<usize>, b: int)
    requires
        0 <= b < order.len(),
        n <= usize::MAX,
        order.no_duplicates(),
        forall|k: int| 0 <= k < order.len() ==> #[trigger] order[k] < n,
    ensures
        !break_decision(n, order, b)[order[b] as int],
        break_decision(n, order, b + 1) == break_decision(n, order, b).update(order[b] as int, true),
{
    let x = order[b];
    let t0 = order.take(b);
    if t0.contains(x) {
        let k = choose|k: int| 0 <= k < b && #[trigger] t0[k] == x;
        assert(order[k] == x);
    }
    assert(order.take(b + 1) =~= order.take(b).push(x));
    assert forall|j: int| 0 <= j < n implies #[trigger] break_decision(n, order, b + 1)[j]
        == break_decision(n, order, b).update(x as int, true)[j] by {
        let tb1 = order.take(b + 1);
        if tb1.contains(j as usize) {
            let k = choose|k: int| 0 <= k < b + 1 && #[trigger] tb1[k] == j as usize;
            if k < b {
                assert(order.take(b)[k] == j as usize);
            }
        }
        let tb = order.take(b);
        if tb.contains(j as usize) {
            let k = choose|k: int| 0 <= k < b && #[trigger] tb[k] == j as usize;
            assert(order.take(b + 1)[k] == j as usize);
        }
        if j == x {
            assert(order.take(b + 1)[b] == x);
        }
    }
    assert(break_decision(n, order, b + 1) =~= break_decision(n, order, b).update(x as int, true));
}

/// The bound of `upper_bound`: a state under the capacity may at best fill
/// the remaining capacity with the item at `next_t` taken fractionally; a
/// state over the capacity must at least give up the excess weight at the
/// efficiency of the item at `next_s`.
pub open spec fn state_bound(
    items: Seq<Item>,
    order: Seq<usize>,
    capacity: int,
    next_s: Option<usize>,
    next_t: int,
    weight: int,
    profit: int,
) -> int {
    if weight <= capacity {
        if next_t < order.len() {
            let it = items[order[next_t] as int];
            profit + ceil_div((capacity - weight) * it.value, it.weight as int)
        } else {
            profit
        }
    } else {
        match next_s {
            Some(s) => {
                let it = items[order[s as int] as int];
                let diff = ceil_div((weight - capacity) * it.value, it.weight as int);
                if diff > profit {
                    0
                } else {
                    profit - diff
                }
            },
            None => profit,
        }
    }
}

/// Entries of `states` grow strictly in weight and in profit, so that none
/// dominates another.
pub open spec fn dominance_free(states: Seq<State>) -> bool {
    forall|i: int, j: int|
        0 <= i < j < states.len() ==> (#[trigger] states[i]).w < (#[trigger] states[j]).w
            && states[i].p < states[j].p
}

/// A search state: the weight and profit of a selection that differs from
/// the break solution by the decisions that its crumb records.
#[derive(Clone, Copy, Debug)]
pub struct State {
    pub w: usize,
    pub p: usize,
    pub sol: SolCrumb,
}

/// Arguments of `upper_bound`, named so that they cannot be mixed up.
struct UBCheck {
    next_s: Option<usize>,
    next_t: usize,
    new_weight: usize,
    new_profit: usize,
}

/// What the search keeps besides its two frontier buffers and the tree.
/// The core is the range `s..t` of positions in the efficiency order.
pub struct Instance<'a> {
    problem: &'a Problem,
    /// Positions of the items that fit on their own, most efficient first.
    order: Vec<usize>,
    break_solution: BreakSolution,
    /// The break decision, until backtracking turns it into the best one.
    decision: Vec<bool>,
    /// The items visited so far, one per decision of a state's history.
    item_order: Vec<usize>,
    /// For each entry of `item_order`, its position in `order`.
    positions: Ghost<Seq<int>>,
    /// First position of the core.
    s: usize,
    /// One past the last position of the core.
    t: usize,
    /// Profit of the best state found so far.
    lower_bound: usize,
    /// States heavier than this can never shed enough weight to fit.
    max_state_weight: usize,
    /// The crumb, level and history length of the best state found so far.
    best_sol: SolCrumb,
    best_sol_level: usize,
    best_sol_len: usize,
    best_sol_weight: usize,
    /// Decisions that each live state holds in its own crumb.
    sol_level: usize,
}

impl<'a> Instance<'a> {
    pub closed spec fn items(&self) -> Seq<Item> {
        self.problem.items@
    }

    pub closed spec fn capacity(&self) -> int {
        self.problem.capacity as int
    }

    /// The break decision over all items of the problem.
    closed spec fn break_dec(&self) -> Seq<bool> {
        break_decision(self.items().len(), self.order@, self.break_solution.break_item as int)
    }

    /// The selection that a crumb holding `level` decisions of its own stands
    /// for, when its history belongs to the entries of `io`.
    closed spec fn selection(&self, tree: Seq<SolCrumb>, io: Seq<usize>, crumb: SolCrumb, level: nat) -> Seq<bool> {
        apply_flips(self.break_dec(), io, history(tree, crumb, level))
    }

    closed spec fn state_ok(&self, tree: Seq<SolCrumb>, io: Seq<usize>, st: State, level: nat) -> bool {
        &&& st.sol.previous < tree.len()
        &&& history(tree, st.sol, level).len() == io.len()
        &&& selected_weight(self.items(), self.selection(tree, io, st.sol, level)) == st.w
        &&& selected_value(self.items(), self.selection(tree, io, st.sol, level)) == st.p
    }

    /// Every state stands for the selection its weight and profit belong to,
    /// and none dominates another.
    closed spec fn frontier_ok(&self, tree: Seq<SolCrumb>, io: Seq<usize>, states: Seq<State>, level: nat) -> bool {
        &&& forall|k: int| 0 <= k < states.len() ==> self.state_ok(tree, io, #[trigger] states[k], level)
        &&& dominance_free(states)
    }

    /// What holds from construction on: the order and the break solution.
    closed spec fn static_wf(&self) -> bool {
        let items = self.items();
        let b = self.break_solution.break_item as int;
        &&& self.problem.sums_fit()
        &&& items.len() <= usize::MAX
        &&& self.max_state_weight == if self.capacity() + self.break_solution.weight > usize::MAX {
            usize::MAX as int
        } else {
            self.capacity() + self.break_solution.weight
        }
        &&& is_core_order(items, self.capacity(), self.order@)
        &&& is_break_item(items, self.order@, self.capacity(), b)
        &&& self.break_solution.profit == prefix_value(items, self.order@, b)
        &&& self.break_solution.weight == prefix_weight(items, self.order@, b)
        &&& self.break_solution.weight <= self.capacity()
        &&& self.break_solution.linear_profit == linear_profit(items, self.order@, self.capacity(), b)
        &&& selected_weight(items, self.break_dec()) == self.break_solution.weight
        &&& selected_value(items, self.break_dec()) == self.break_solution.profit
        &&& self.decision@ == self.break_dec()
    }

    /// The core `s..t` surrounds the break item, and `item_order` names the
    /// items of the core in the order they were visited.
    closed spec fn core_wf(&self) -> bool {
        let b = self.break_solution.break_item as int;
        let pos = self.positions@;
        &&& self.s <= b <= self.t <= self.order@.len()
        &&& pos.len() == self.item_order@.len() == (self.t - b) + (b - self.s)
        &&& forall|k: int|
            0 <= k < pos.len() ==> self.s <= #[trigger] pos[k] < self.t && self.item_order@[k]
                == self.order@[pos[k]]
        &&& forall|j: int| self.s <= j < self.t ==> self.item_order@.contains(#[trigger] self.order@[j])
        &&& self.sol_level < 64
    }

    /// The best state found so far is recorded faithfully.
    closed spec fn best_wf(&self, tree: Seq<SolCrumb>) -> bool {
        let io = self.item_order@.take(self.best_sol_len as int);
        let sel = self.selection(tree, io, self.best_sol, self.best_sol_level as nat);
        &&& self.best_sol.previous < tree.len()
        &&& self.best_sol_level <= 64
        &&& self.best_sol_len <= self.item_order@.len()
        &&& history(tree, self.best_sol, self.best_sol_level as nat).len() == self.best_sol_len
        &&& selected_weight(self.items(), sel) == self.best_sol_weight
        &&& selected_value(self.items(), sel) == self.lower_bound
        &&& self.best_sol_weight <= self.capacity()
    }

    closed spec fn inv(&self, tree: Seq<SolCrumb>) -> bool {
        &&& tree_wf(tree)
        &&& self.static_wf()
        &&& self.core_wf()
        &&& self.best_wf(tree)
    }

    /// `x` on the items that `io` names (the core), the break decision elsewhere.
    closed spec fn hybrid(&self, io: Seq<usize>, x: Seq<bool>) -> Seq<bool> {
        Seq::new(
            self.items().len(),
            |i: int|
                if io.contains(i as usize) {
                    x[i]
                } else {
                    self.break_dec()[i]
                },
        )
    }

    /// A state of weight `w` and profit `p` does at least as well as `x` on
    /// the core `io`.
    closed spec fn covers(&self, io: Seq<usize>, w: int, p: int, x: Seq<bool>) -> bool {
        &&& w <= selected_weight(self.items(), self.hybrid(io, x))
        &&& p >= selected_value(self.items(), self.hybrid(io, x))
    }

    /// `x` fits and beats the lower bound.
    closed spec fn improves(&self, x: Seq<bool>) -> bool {
        &&& crate::problem::feasible(self.items(), self.capacity(), x)
        &&& selected_value(self.items(), x) > self.lower_bound
    }

    /// No state that fits beats the lower bound, and every selection that
    /// does is matched by some state on the core `io`.
    closed spec fn search_ok(&self, io: Seq<usize>, states: Seq<State>) -> bool {
        &&& forall|k: int|
            0 <= k < states.len() && (#[trigger] states[k]).w <= self.capacity() ==> states[k].p
                <= self.lower_bound
        &&& forall|x: Seq<bool>|
            #[trigger] self.improves(x) ==> exists|k: int|
                0 <= k < states.len() && #[trigger] self.covers(io, states[k].w as int, states[k].p as int, x)
    }

    /// A state that matches a selection which fits is not too heavy to keep,
    /// and its bound is at least the selection's value: the items outside
    /// the core that the selection adds are no more efficient than the item
    /// at `next_t` (or `next_s`), and those it drops no less.
    proof fn lemma_bound_sound(&self, w: int, p: int, next_s: Option<usize>, next_t: int, x: Seq<bool>)
        requires
            self.static_wf(),
            self.core_wf(),
            self.covers(self.item_order@, w, p, x),
            crate::problem::feasible(self.items(), self.capacity(), x),
            0 <= next_t <= self.order@.len(),
            self.s <= next_t + 1,
            next_t <= self.t,
            next_s matches Some(r) ==> r < self.order@.len() && self.s <= r + 1 && r <= self.t,
            next_s is None ==> self.s == 0,
        ensures
            selected_value(self.items(), x) <= state_bound(
                self.items(),
                self.order@,
                self.capacity(),
                next_s,
                next_t,
                w,
                p,
            ),
            w <= self.capacity() + self.break_solution.weight,
    {
        let items = self.items();
        let n = items.len();
        let order = self.order@;
        let io = self.item_order@;
        let cap = self.capacity();
        let bd = self.break_dec();
        let b = self.break_solution.break_item as int;
        let hyb = self.hybrid(io, x);
        let ws = crate::problem::weights(items);
        let vs = crate::problem::values(items);
        assert(hyb.len() == n);
        assert(bd.len() == n);
        // Where `x` and the hybrid differ, the item lies outside the core: to
        // the right of it when `x` adds it, to the left when `x` drops it.
        assert forall|i: int| 0 <= i < n && x[i] && !hyb[i] implies exists|j: int|
            self.t <= j < order.len() && #[trigger] order[j] == i as usize by {
            crate::problem::lemma_unselect_item(items, x, i);
            lemma_selection_bounds(items, x.update(i, false));
            assert(order.contains(i as usize));
            let j = choose|j: int| 0 <= j < order.len() && #[trigger] order[j] == i as usize;
            assert(!io.contains(i as usize));
            assert(!bd[i]);
            if j < b {
                assert(order.take(b)[j] == i as usize);
            }
            if self.s <= j < self.t {
                assert(io.contains(order[j]));
            }
        }
        assert forall|i: int| 0 <= i < n && !x[i] && hyb[i] implies exists|j: int|
            0 <= j < self.s && #[trigger] order[j] == i as usize by {
            assert(!io.contains(i as usize));
            assert(bd[i]);
            let tb = order.take(b);
            let j = choose|j: int| 0 <= j < tb.len() && #[trigger] tb[j] == i as usize;
            assert(order[j] == i as usize);
            if self.s <= j < self.t {
                assert(io.contains(order[j]));
            }
        }
        // The hybrid lies within `x` and the break decision together.
        lemma_break_decision_sums(items, order, b);
        assert forall|i: int| 0 <= i < n && #[trigger] hyb[i] implies x[i] || bd[i] by {}
        lemma_union_sum(ws, hyb, x, bd, n as int);
        lemma_selection_bounds(items, x);
        lemma_selection_bounds(items, hyb);
        let (vx, vh, wx, wh) = (
            selected_value(items, x),
            selected_value(items, hyb),
            selected_weight(items, x),
            selected_weight(items, hyb),
        );
        if w <= cap {
            if next_t < order.len() {
                let e = items[order[next_t] as int];
                self.lemma_exchange_outside(x, hyb, next_t);
                let (ev, ew) = (e.value as int, e.weight as int);
                let xx = (cap - w) * ev;
                assert(ew * (vx - vh) <= xx) by (nonlinear_arith)
                    requires
                        ew * (vx - vh) <= ev * (wx - wh),
                        xx == (cap - w) * ev,
                        wx <= cap,
                        w <= wh,
                        ev >= 0,
                ;
                assert(xx >= 0) by (nonlinear_arith)
                    requires
                        xx == (cap - w) * ev,
                        w <= cap,
                        ev >= 0,
                ;
                assert(vx - vh <= (xx + ew - 1) / ew) by (nonlinear_arith)
                    requires
                        ew * (vx - vh) <= xx,
                        ew > 0,
                ;
            } else {
                assert forall|i: int| 0 <= i < n && #[trigger] x[i] implies hyb[i] by {
                    if !hyb[i] {
                        let j = choose|j: int| self.t <= j < order.len() && #[trigger] order[j] == i as usize;
                    }
                }
                lemma_subset_sum(vs, x, hyb, n as int);
            }
        } else {
            match next_s {
                Some(r) => {
                    let e = items[order[r as int] as int];
                    self.lemma_exchange_outside(x, hyb, r as int);
                    let (ev, ew) = (e.value as int, e.weight as int);
                    let xx = (w - cap) * ev;
                    assert(ew * (vx - vh) <= -xx) by (nonlinear_arith)
                        requires
                            ew * (vx - vh) <= ev * (wx - wh),
                            xx == (w - cap) * ev,
                            wx <= cap,
                            w <= wh,
                            ev >= 0,
                    ;
                    assert(xx >= 0) by (nonlinear_arith)
                        requires
                            xx == (w - cap) * ev,
                            w > cap,
                            ev >= 0,
                    ;
                    let q = (xx + ew - 1) / ew;
                    vstd::arithmetic::div_mod::lemma_fundamental_div_mod(xx + ew - 1, ew);
                    assert(vx - vh <= -q) by (nonlinear_arith)
                        requires
                            ew * (vx - vh) <= -xx,
                            ew > 0,
                            xx >= 0,
                            q == (xx + ew - 1) / ew,
                            xx + ew - 1 == ew * q + (xx + ew - 1) % ew,
                            0 <= (xx + ew - 1) % ew < ew,
                    ;
                },
                None => {
                    assert forall|i: int| 0 <= i < n && #[trigger] hyb[i] implies x[i] by {
                        if !x[i] {
                            let j = choose|j: int| 0 <= j < self.s && #[trigger] order[j] == i as usize;
                        }
                    }
                    lemma_subset_sum(ws, hyb, x, n as int);
                },
            }
        }
    }

    /// A candidate state has been dealt with: it is too heavy to keep, its
    /// bound does not beat the lower bound, or a state of `next` dominates it.
    closed spec fn handled(&self, next: Seq<State>, w: int, p: int, next_s: Option<usize>, next_t: int) -> bool {
        ||| w > self.max_state_weight
        ||| state_bound(self.items(), self.order@, self.capacity(), next_s, next_t, w, p)
            <= self.lower_bound
        ||| dominated_in(next, w, p)
    }

    /// After a merge step that dealt with both candidates of every state,
    /// each selection that beats the lower bound is matched by a state of
    /// `next` on the grown core.
    proof fn lemma_next_covers(
        &self,
        old_lb: int,
        io0: Seq<usize>,
        o: usize,
        cur: Seq<State>,
        next: Seq<State>,
        dw: int,
        dp: int,
        next_s: Option<usize>,
        next_t: int,
    )
        requires
            self.static_wf(),
            self.core_wf(),
            self.item_order@ == io0.push(o),
            o < self.items().len(),
            forall|k: int| 0 <= k < io0.len() ==> #[trigger] io0[k] != o,
            dw == if self.break_dec()[o as int] {
                -self.items()[o as int].weight
            } else {
                self.items()[o as int].weight as int
            },
            dp == if self.break_dec()[o as int] {
                -self.items()[o as int].value
            } else {
                self.items()[o as int].value as int
            },
            old_lb <= self.lower_bound,
            forall|x: Seq<bool>|
                crate::problem::feasible(self.items(), self.capacity(), x) && selected_value(self.items(), x)
                    > old_lb ==> exists|k: int|
                    0 <= k < cur.len() && #[trigger] self.covers(io0, cur[k].w as int, cur[k].p as int, x),
            forall|k: int|
                0 <= k < cur.len() ==> self.handled(next, (#[trigger] cur[k]).w as int, cur[k].p as int, next_s, next_t)
                    && self.handled(next, cur[k].w + dw, cur[k].p + dp, next_s, next_t),
            0 <= next_t <= self.order@.len(),
            self.s <= next_t + 1,
            next_t <= self.t,
            next_s matches Some(r) ==> r < self.order@.len() && self.s <= r + 1 && r <= self.t,
            next_s is None ==> self.s == 0,
        ensures
            forall|x: Seq<bool>|
                #[trigger] self.improves(x) ==> exists|m: int|
                    0 <= m < next.len() && #[trigger] self.covers(self.item_order@, next[m].w as int, next[m].p as int, x),
    {
        let items = self.items();
        let bd = self.break_dec();
        let io1 = self.item_order@;
        assert forall|x: Seq<bool>| #[trigger] self.improves(x) implies exists|m: int|
            0 <= m < next.len() && #[trigger] self.covers(io1, next[m].w as int, next[m].p as int, x) by {
            let k = choose|k: int| 0 <= k < cur.len() && #[trigger] self.covers(io0, cur[k].w as int, cur[k].p as int, x);
            let hyb0 = self.hybrid(io0, x);
            let hyb1 = self.hybrid(io1, x);
            assert(!io0.contains(o));
            assert forall|i: int| 0 <= i < items.len() implies #[trigger] hyb1[i] == hyb0.update(o as int, x[o as int])[i] by {
                if io0.contains(i as usize) {
                    let j = choose|j: int| 0 <= j < io0.len() && io0[j] == i as usize;
                    assert(io1[j] == i as usize);
                }
                if io1.contains(i as usize) && i != o {
                    let j = choose|j: int| 0 <= j < io1.len() && io1[j] == i as usize;
                    assert(j < io0.len());
                    assert(io0[j] == i as usize);
                }
                if i == o {
                    assert(io1[io0.len() as int] == o);
                }
            }
            assert(hyb1 =~= hyb0.update(o as int, x[o as int]));
            assert(hyb0[o as int] == bd[o as int]);
            let (w, p) = if x[o as int] == bd[o as int] {
                assert(hyb1 =~= hyb0);
                (cur[k].w as int, cur[k].p as int)
            } else {
                if bd[o as int] {
                    crate::problem::lemma_unselect_item(items, hyb0, o as int);
                } else {
                    lemma_select_item(items, hyb0, o as int);
                }
                (cur[k].w + dw, cur[k].p + dp)
            };
            assert(self.covers(io1, w, p, x));
            assert(self.handled(next, w, p, next_s, next_t));
            self.lemma_bound_sound(w, p, next_s, next_t, x);
            lemma_selection_bounds(items, hyb1);
            let m = choose|m: int| 0 <= m < next.len() && (#[trigger] next[m]).w <= w && next[m].p >= p;
            assert(self.covers(io1, next[m].w as int, next[m].p as int, x));
        }
    }

    /// After `place_state` in a merge step, the fitting states of `next`
    /// still do not beat the lower bound, provided the placed one does not.
    proof fn lemma_placed(&self, old_lb: int, before: Seq<State>, after: Seq<State>, st: State)
        requires
            old_lb <= self.lower_bound,
            forall|m: int|
                0 <= m < before.len() && (#[trigger] before[m]).w <= self.capacity() ==> before[m].p
                    <= old_lb,
            st.w <= self.capacity() ==> st.p <= self.lower_bound,
            after.len() > 0,
            after.last() == st,
            after.len() == before.len() + 1 || after.len() == before.len(),
            forall|k: int| 0 <= k < after.len() - 1 ==> #[trigger] after[k] == before[k],
        ensures
            forall|m: int|
                0 <= m < after.len() && (#[trigger] after[m]).w <= self.capacity() ==> after[m].p
                    <= self.lower_bound,
    {
        assert forall|m: int| 0 <= m < after.len() && (#[trigger] after[m]).w <= self.capacity()
            implies after[m].p <= self.lower_bound by {
            if m < after.len() - 1 {
                assert(after[m] == before[m]);
            }
        }
    }

    /// A merge step keeps every candidate dealt with before it dealt with:
    /// it raises the lower bound at most and places at most one state. The
    /// candidate of the step itself (the last of its stream) comes dealt with.
    proof fn lemma_still_handled(
        &self,
        old_lb: int,
        before: Seq<State>,
        after: Seq<State>,
        cur: Seq<State>,
        keep_end: int,
        change_end: int,
        keep_advanced: bool,
        dw: int,
        dp: int,
        next_s: Option<usize>,
        next_t: int,
    )
        requires
            old_lb <= self.lower_bound,
            0 <= keep_end <= cur.len(),
            0 <= change_end <= cur.len(),
            keep_advanced ==> keep_end > 0,
            !keep_advanced ==> change_end > 0,
            after == before || (after.len() > 0 && (before.len() > 0 ==> before.last().p < after.last().p)
                && (after.len() == before.len() + 1 || (after.len() == before.len() && before.len() > 0
                && after.last().w == before.last().w)) && forall|k: int|
                0 <= k < after.len() - 1 ==> #[trigger] after[k] == before[k]),
            forall|k: int|
                0 <= k < (if keep_advanced { keep_end - 1 } else { keep_end }) ==> ((#[trigger] cur[k]).w
                    > self.max_state_weight || state_bound(
                    self.items(),
                    self.order@,
                    self.capacity(),
                    next_s,
                    next_t,
                    cur[k].w as int,
                    cur[k].p as int,
                ) <= old_lb || dominated_in(before, cur[k].w as int, cur[k].p as int)),
            forall|k: int|
                0 <= k < (if keep_advanced { change_end } else { change_end - 1 }) ==> ((#[trigger] cur[k]).w
                    + dw > self.max_state_weight || state_bound(
                    self.items(),
                    self.order@,
                    self.capacity(),
                    next_s,
                    next_t,
                    cur[k].w + dw,
                    cur[k].p + dp,
                ) <= old_lb || dominated_in(before, cur[k].w + dw, cur[k].p + dp)),
            keep_advanced ==> self.handled(
                after,
                cur[keep_end - 1].w as int,
                cur[keep_end - 1].p as int,
                next_s,
                next_t,
            ),
            !keep_advanced ==> self.handled(
                after,
                cur[change_end - 1].w + dw,
                cur[change_end - 1].p + dp,
                next_s,
                next_t,
            ),
        ensures
            forall|k: int|
                0 <= k < keep_end ==> self.handled(after, (#[trigger] cur[k]).w as int, cur[k].p as int, next_s, next_t),
            forall|k: int|
                0 <= k < change_end ==> self.handled(after, (#[trigger] cur[k]).w + dw, cur[k].p + dp, next_s, next_t),
    {
        assert forall|k: int| 0 <= k < keep_end implies self.handled(after, (#[trigger] cur[k]).w as int, cur[k].p as int, next_s, next_t) by {
            if !(keep_advanced && k == keep_end - 1) {
                if dominated_in(before, cur[k].w as int, cur[k].p as int) && after != before {
                    lemma_dominated_kept(before, after, after.last(), cur[k].w as int, cur[k].p as int);
                }
            }
        }
        assert forall|k: int| 0 <= k < change_end implies self.handled(after, (#[trigger] cur[k]).w + dw, cur[k].p + dp, next_s, next_t) by {
            if !(!keep_advanced && k == change_end - 1) {
                if dominated_in(before, cur[k].w + dw, cur[k].p + dp) && after != before {
                    lemma_dominated_kept(before, after, after.last(), cur[k].w + dw, cur[k].p + dp);
                }
            }
        }
    }

    /// What `start` knew of the states matching improving selections holds
    /// for an instance of the same setting.
    proof fn lemma_covers_carried(&self, start: &Instance, io: Seq<usize>, cur: Seq<State>)
        requires
            self.same_setting(start),
            start.search_ok(io, cur),
        ensures
            forall|x: Seq<bool>|
                crate::problem::feasible(self.items(), self.capacity(), x) && selected_value(self.items(), x)
                    > start.lower_bound ==> exists|k: int|
                    0 <= k < cur.len() && #[trigger] self.covers(io, cur[k].w as int, cur[k].p as int, x),
    {
        assert forall|x: Seq<bool>|
            crate::problem::feasible(self.items(), self.capacity(), x) && selected_value(self.items(), x)
                > start.lower_bound implies exists|k: int|
                0 <= k < cur.len() && #[trigger] self.covers(io, cur[k].w as int, cur[k].p as int, x) by {
            assert(start.improves(x));
            let k = choose|k: int| 0 <= k < cur.len() && #[trigger] start.covers(io, cur[k].w as int, cur[k].p as int, x);
            assert(start.hybrid(io, x) =~= self.hybrid(io, x));
            assert(self.covers(io, cur[k].w as int, cur[k].p as int, x));
        }
    }

    /// The exchange argument against the item at position `r`, which lies
    /// between the items `x` drops and the items it adds.
    proof fn lemma_exchange_outside(&self, x: Seq<bool>, hyb: Seq<bool>, r: int)
        requires
            self.static_wf(),
            0 <= r < self.order@.len(),
            x.len() == self.items().len(),
            hyb.len() == self.items().len(),
            self.s <= r + 1,
            r <= self.t,
            forall|i: int| 0 <= i < self.items().len() && x[i] && !hyb[i] ==> exists|j: int|
                self.t <= j < self.order@.len() && #[trigger] self.order@[j] == i as usize,
            forall|i: int| 0 <= i < self.items().len() && !x[i] && hyb[i] ==> exists|j: int|
                0 <= j < self.s && #[trigger] self.order@[j] == i as usize,
        ensures
            ({
                let e = self.items()[self.order@[r] as int];
                e.weight * (selected_value(self.items(), x) - selected_value(self.items(), hyb))
                    <= e.value * (selected_weight(self.items(), x) - selected_weight(self.items(), hyb))
            }),
    {
        let items = self.items();
        let order = self.order@;
        let e = items[order[r] as int];
        assert forall|i: int| 0 <= i < items.len() && x[i] && !hyb[i] implies eff_ge(e, #[trigger] items[i]) by {
            let j = choose|j: int| self.t <= j < order.len() && #[trigger] order[j] == i as usize;
            if r < j {
                assert(eff_ge(items[order[r] as int], items[order[j] as int]));
            }
        }
        assert forall|i: int| 0 <= i < items.len() && !x[i] && hyb[i] implies eff_ge(#[trigger] items[i], e) by {
            let j = choose|j: int| 0 <= j < self.s && #[trigger] order[j] == i as usize;
            if j < r {
                assert(eff_ge(items[order[j] as int], items[order[r] as int]));
            }
        }
        lemma_exchange(items, hyb, x, e, items.len() as int);
    }

    /// The item at position `ordered_index` of the efficiency order.
    fn item(&self, ordered_index: usize) -> (r: Item)
        requires
            self.static_wf(),
            ordered_index < self.order@.len(),
        ensures
            r == self.items()[self.order@[ordered_index as int] as int],
    {
        let index = self.order[ordered_index];
        self.problem.items[index]
    }

    /// An upper bound on the profit of any completion of a state, by the
    /// linear relaxation of the items still outside the core.
    fn upper_bound(&self, u: UBCheck) -> (r: u128)
        requires
            self.static_wf(),
            u.next_t <= self.order@.len(),
            u.next_s matches Some(s) ==> s < self.order@.len(),
        ensures
            r == state_bound(
                self.items(),
                self.order@,
                self.capacity(),
                u.next_s,
                u.next_t as int,
                u.new_weight as int,
                u.new_profit as int,
            ),
    {
        let n = self.order.len();
        let capacity = self.problem.capacity;
        if u.new_weight <= capacity {
            if u.next_t < n {
                let item = self.item(u.next_t);
                let remainder = capacity - u.new_weight;
                proof {
                    lemma_word_product_fits(remainder, item.value);
                    let x = remainder as int * item.value as int + item.weight - 1;
                    assert(x / (item.weight as int) <= x) by (nonlinear_arith)
                        requires
                            x >= 0,
                            item.weight >= 1,
                    ;
                }
                let extra = ((remainder as u128) * (item.value as u128) + (item.weight as u128) - 1)
                    / (item.weight as u128);
                (u.new_profit as u128) + extra
            } else {
                u.new_profit as u128
            }
        } else {
            match u.next_s {
                Some(next_s) => {
                    let item = self.item(next_s);
                    let remainder = u.new_weight - capacity;
                    proof {
                        lemma_word_product_fits(remainder, item.value);
                    }
                    let linear_diff = ((remainder as u128) * (item.value as u128) + (item.weight as u128)
                        - 1) / (item.weight as u128);
                    if linear_diff > u.new_profit as u128 {
                        0
                    } else {
                        (u.new_profit as u128) - linear_diff
                    }
                },
                None => u.new_profit as u128,
            }
        }
    }

    /// A selection spans all items and agrees with the break decision on an
    /// item that its history has not visited.
    proof fn lemma_selection_basics(&self, tree: Seq<SolCrumb>, io: Seq<usize>, st: State, level: nat, o: usize)
        requires
            self.static_wf(),
            o < self.items().len(),
            forall|k: int| 0 <= k < io.len() ==> #[trigger] io[k] < self.items().len() && io[k] != o,
        ensures
            self.selection(tree, io, st.sol, level)[o as int] == self.break_dec()[o as int],
            self.selection(tree, io, st.sol, level).len() == self.items().len(),
    {
        let bd = self.break_dec();
        let h = history(tree, st.sol, level);
        crate::sol_tree::lemma_apply_flips_untouched(bd, io, h, o as int, true);
        crate::sol_tree::lemma_apply_flips_len(bd, io, h);
    }

    /// The selection after one more decision on the item `o`, which the
    /// history has not visited yet: a `true` decision toggles it.
    proof fn lemma_selection_step(
        &self,
        tree: Seq<SolCrumb>,
        io: Seq<usize>,
        st: State,
        level: nat,
        sol2: SolCrumb,
        o: usize,
        bit: bool,
    )
        requires
            self.static_wf(),
            self.state_ok(tree, io, st, level),
            history(tree, sol2, level + 1) == history(tree, st.sol, level).push(bit),
            o < self.items().len(),
            forall|k: int| 0 <= k < io.len() ==> #[trigger] io[k] < self.items().len() && io[k] != o,
        ensures
            self.selection(tree, io, st.sol, level)[o as int] == self.break_dec()[o as int],
            self.selection(tree, io.push(o), sol2, level + 1) == self.selection(tree, io, st.sol, level).update(
                o as int,
                self.break_dec()[o as int] != bit,
            ),
            self.selection(tree, io, st.sol, level).len() == self.items().len(),
    {
        let bd = self.break_dec();
        let h = history(tree, st.sol, level);
        let io2 = io.push(o);
        assert(io2.last() == o);
        assert(io2.drop_last() =~= io);
        assert(h.push(bit).last() == bit);
        assert(h.push(bit).drop_last() =~= h);
        assert(apply_flips(bd, io2, h.push(bit)) == apply_flips(
            bd.update(o as int, bd[o as int] != bit),
            io,
            h,
        ));
        crate::sol_tree::lemma_apply_flips_untouched(bd, io, h, o as int, bd[o as int] != bit);
        crate::sol_tree::lemma_apply_flips_len(bd, io, h);
    }

    /// Taking an item that a state does not hold keeps the sums within a
    /// machine word; dropping one that it holds keeps them nonnegative.
    proof fn lemma_state_sums(&self, tree: Seq<SolCrumb>, io: Seq<usize>, st: State, level: nat, o: usize)
        requires
            self.static_wf(),
            self.state_ok(tree, io, st, level),
            o < self.items().len(),
            self.selection(tree, io, st.sol, level).len() == self.items().len(),
        ensures
            !self.selection(tree, io, st.sol, level)[o as int] ==> st.w + self.items()[o as int].weight
                <= usize::MAX && st.p + self.items()[o as int].value <= usize::MAX,
            self.selection(tree, io, st.sol, level)[o as int] ==> st.w >= self.items()[o as int].weight
                && st.p >= self.items()[o as int].value,
    {
        let sel = self.selection(tree, io, st.sol, level);
        if sel[o as int] {
            crate::problem::lemma_unselect_item(self.items(), sel, o as int);
            lemma_selection_bounds(self.items(), sel.update(o as int, false));
        } else {
            lemma_select_item(self.items(), sel, o as int);
            lemma_selection_bounds(self.items(), sel.update(o as int, true));
        }
    }

    /// Both instances search the same problem from the same break solution.
    closed spec fn same_setting(&self, other: &Instance) -> bool {
        &&& self.problem == other.problem
        &&& self.order == other.order
        &&& self.break_solution == other.break_solution
        &&& self.decision == other.decision
        &&& self.max_state_weight == other.max_state_weight
    }

    /// Expands the core to the right by the item at position `t`: every state
    /// either keeps its decision on the item (it stays out) or changes it
    /// (the item is taken). Both streams are merged by weight into
    /// `next_states`, leaving out dominated states, states heavier than
    /// `max_state_weight` and states whose bound does not beat the lower
    /// bound.
    #[verifier::rlimit(80)]
    fn add_item_t(&mut self, current_states: &Vec<State>, next_states: &mut Vec<State>, sol_tree: &SolTree)
        requires
            old(self).inv(sol_tree@),
            old(self).t < old(self).order@.len(),
            old(self).frontier_ok(
                sol_tree@,
                old(self).item_order@,
                current_states@,
                old(self).sol_level as nat,
            ),
            old(next_states)@.len() == 0,
            old(self).search_ok(old(self).item_order@, current_states@),
        ensures
            final(self).inv(sol_tree@),
            final(self).search_ok(final(self).item_order@, final(next_states)@),
            final(self).same_setting(old(self)),
            final(self).t == old(self).t + 1,
            final(self).s == old(self).s,
            final(self).sol_level == old(self).sol_level,
            final(self).lower_bound >= old(self).lower_bound,
            final(self).frontier_ok(
                sol_tree@,
                final(self).item_order@,
                final(next_states)@,
                old(self).sol_level as nat + 1,
            ),
            dominance_free(final(next_states)@),
            final(self).item_order@ == old(self).item_order@.push(old(self).order@[old(self).t as int]),
            successors_of(final(next_states)@, current_states@, old(self).items()[old(self).order@[old(self).t as int] as int].weight as int, old(self).items()[old(self).order@[old(self).t as int] as int].value as int),
            weights_within(final(next_states)@, final(self).max_state_weight as int),
            forall|k: int|
                0 <= k < current_states@.len() ==> final(self).handled(
                    final(next_states)@,
                    (#[trigger] current_states@[k]).w as int,
                    current_states@[k].p as int,
                    Some(old(self).s),
                    final(self).t as int,
                ) && final(self).handled(
                    final(next_states)@,
                    current_states@[k].w + old(self).items()[old(self).order@[old(self).t as int] as int].weight as int,
                    current_states@[k].p + old(self).items()[old(self).order@[old(self).t as int] as int].value as int,
                    Some(old(self).s),
                    final(self).t as int,
                ),
            forall|m: int|
                0 <= m < final(next_states)@.len() && (#[trigger] final(next_states)@[m]).w
                    <= final(self).capacity() ==> final(next_states)@[m].p <= final(self).lower_bound,
            final(self).lower_bound == old(self).lower_bound ==> final(self).best_sol == old(self).best_sol
                && final(self).best_sol_level == old(self).best_sol_level && final(self).best_sol_len
                == old(self).best_sol_len && final(self).best_sol_weight == old(self).best_sol_weight,
            final(self).lower_bound > old(self).lower_bound ==> holds_best(
                final(next_states)@,
                final(self).capacity(),
                final(self).lower_bound as int,
                final(self).best_sol,
                final(self).best_sol_weight as int,
            ) && final(self).best_sol_level == old(self).sol_level + 1 && final(self).best_sol_len
                == final(self).item_order@.len(),
    {
        let ghost tree = sol_tree@;
        let ghost io0 = self.item_order@;
        let ghost lvl = self.sol_level as nat;
        let ghost start = *self;
        let pos = self.t;
        let item_count = self.order.len();
        proof {
            assert(pos < item_count);
        }
        self.add_to_item_order(pos);
        self.t = pos + 1;
        let item = self.item(pos);
        let ghost o = self.order@[pos as int];
        proof {
            assert(self.item_order@.take(self.best_sol_len as int) =~= io0.take(self.best_sol_len as int));
            assert forall|k: int| 0 <= k < self.positions@.len() implies self.s <= #[trigger] self.positions@[k]
                < self.t && self.item_order@[k] == self.order@[self.positions@[k]] by {
                if k < io0.len() {
                    assert(self.positions@[k] == start.positions@[k]);
                }
            }
            assert forall|j: int| self.s <= j < self.t implies self.item_order@.contains(
                #[trigger] self.order@[j],
            ) by {
                if j < pos {
                    let k = choose|k: int| 0 <= k < io0.len() && io0[k] == self.order@[j];
                    assert(self.item_order@[k] == io0[k]);
                } else {
                    assert(self.item_order@[io0.len() as int] == self.order@[j]);
                }
            }
            assert forall|k: int| 0 <= k < io0.len() implies #[trigger] io0[k] < self.items().len()
                && io0[k] != o by {
                let pk = start.positions@[k];
                assert(io0[k] == self.order@[pk]);
                assert(self.order@.no_duplicates());
            }
            assert(!self.break_dec()[o as int]) by {
                let tb = self.order@.take(self.break_solution.break_item as int);
                if tb.contains(o) {
                    let k = choose|k: int| 0 <= k < tb.len() && #[trigger] tb[k] == o;
                    assert(self.order@[k] == o);
                }
            }
        }
        let state_count = current_states.len();
        let mut change_index: usize = 0;
        let mut keep_index: usize = 0;
        while change_index != state_count || keep_index != state_count
            invariant
                tree == sol_tree@,
                self.inv(tree),
                self.same_setting(&start),
                self.item_order@ == io0.push(o),
                self.t == pos + 1,
                self.s == start.s,
                self.sol_level == lvl,
                self.lower_bound >= start.lower_bound,
                o == self.order@[pos as int],
                o < self.items().len(),
                item == self.items()[o as int],
                item.weight > 0,
                !self.break_dec()[o as int],
                forall|k: int| 0 <= k < io0.len() ==> #[trigger] io0[k] < self.items().len() && io0[k] != o,
                self.frontier_ok(tree, io0, current_states@, lvl),
                state_count == current_states@.len(),
                change_index <= state_count,
                keep_index <= state_count,
                keep_index < state_count ==> change_index < state_count,
                self.frontier_ok(tree, io0.push(o), next_states@, lvl + 1),
                next_states@.len() > 0 && keep_index < state_count ==> next_states@.last().w
                    <= current_states@[keep_index as int].w,
                next_states@.len() > 0 && change_index < state_count ==> next_states@.last().w
                    <= current_states@[change_index as int].w + item.weight,
                start.search_ok(io0, current_states@),
                successors_of(next_states@, current_states@, item.weight as int, item.value as int),
                weights_within(next_states@, self.max_state_weight as int),
                self.lower_bound == start.lower_bound ==> self.best_sol == start.best_sol
                    && self.best_sol_level == start.best_sol_level && self.best_sol_len == start.best_sol_len
                    && self.best_sol_weight == start.best_sol_weight,
                self.lower_bound > start.lower_bound ==> holds_best(
                    next_states@,
                    self.capacity(),
                    self.lower_bound as int,
                    self.best_sol,
                    self.best_sol_weight as int,
                ) && self.best_sol_level == lvl + 1 && self.best_sol_len == io0.len() + 1,
                forall|k: int|
                    0 <= k < keep_index ==> self.handled(
                        next_states@,
                        (#[trigger] current_states@[k]).w as int,
                        current_states@[k].p as int,
                        Some(start.s),
                        self.t as int,
                    ),
                forall|k: int|
                    0 <= k < change_index ==> self.handled(
                        next_states@,
                        (#[trigger] current_states@[k]).w + item.weight,
                        current_states@[k].p + item.value,
                        Some(start.s),
                        self.t as int,
                    ),
                forall|m: int|
                    0 <= m < next_states@.len() && (#[trigger] next_states@[m]).w <= self.capacity()
                        ==> next_states@[m].p <= self.lower_bound,
            decreases 2 * state_count - change_index - keep_index,
        {
            let ghost self0 = *self;
            let ghost next0 = next_states@;
            proof {
                if change_index < state_count {
                    let st = current_states@[change_index as int];
                    assert(self.state_ok(tree, io0, st, lvl));
                    self.lemma_selection_basics(tree, io0, st, lvl, o);
                    self.lemma_state_sums(tree, io0, st, lvl, o);
                }
            }
            if keep_index >= state_count || current_states[keep_index].w
                > current_states[change_index].w + item.weight {
                let change_state = current_states[change_index];
                let change_weight = change_state.w + item.weight;
                if change_weight <= self.max_state_weight {
                    let change_profit = change_state.p + item.value;
                    if next_states.len() == 0 || change_profit > last_profit(next_states) {
                        let upper_bound = self.upper_bound(
                            UBCheck {
                                next_s: Some(self.s),
                                next_t: self.t,
                                new_profit: change_profit,
                                new_weight: change_weight,
                            },
                        );
                        if upper_bound > self.lower_bound as u128 {
                            let mut change_sol = change_state.sol;
                            change_sol.add_decision(true);
                            let new_state = State { p: change_profit, w: change_weight, sol: change_sol };
                            proof {
                                let h = history(tree, change_state.sol, lvl);
                                assert(history(tree, change_sol, lvl + 1) =~= h.push(true));
                                self.lemma_selection_step(tree, io0, change_state, lvl, change_sol, o, true);
                                let sel = self.selection(tree, io0, change_state.sol, lvl);
                                lemma_select_item(self.items(), sel, o as int);
                            }
                            self.check_for_new_lower_bound(&new_state, Ghost(tree));
                            let ghost before = next_states@;
                            place_state(next_states, new_state);
                            proof {
                                assert forall|k: int| 0 <= k < next_states@.len() implies self.state_ok(
                                    tree,
                                    io0.push(o),
                                    #[trigger] next_states@[k],
                                    lvl + 1,
                                ) by {
                                    if k < next_states@.len() - 1 {
                                        assert(next_states@[k] == before[k]);
                                    }
                                }
    self.lemma_placed(self0.lower_bound as int, before, next_states@, new_state);
lemma_successors_placed(before, next_states@, new_state, current_states@, item.weight as int, item.value as int, change_index as int);
lemma_weights_placed(before, next_states@, new_state, self.max_state_weight as int);
if self.lower_bound > self0.lower_bound {
    assert(next_states@[next_states@.len() - 1] == new_state);
} else if self.lower_bound > start.lower_bound {
    lemma_best_placed(before, next_states@, new_state, self.capacity(), self.lower_bound as int, self.best_sol, self.best_sol_weight as int);
}
                            }
                        }
                    }
                }
                proof {
                    let cand = current_states@[change_index as int];
                    let (cw, cp) = (cand.w + item.weight, cand.p + item.value);
                    if next_states@.len() > 0 && next_states@.last().w <= cw && next_states@.last().p >= cp {
                        assert(next_states@[next_states@.len() - 1] == next_states@.last());
                    }
                    assert(self.handled(next_states@, cw, cp, Some(start.s), self.t as int));
                    self.lemma_still_handled(self0.lower_bound as int, next0, next_states@, current_states@,
                        keep_index as int, change_index as int + 1, false, item.weight as int, item.value as int,
                        Some(start.s), self.t as int);
                    if change_index + 1 < state_count {
                        assert(current_states@[change_index as int].w < current_states@[change_index + 1].w);
                    }
                    if keep_index < state_count && change_index + 1 == state_count {
                        assert(current_states@[keep_index as int].w <= current_states@[change_index as int].w) by {
                            if keep_index < change_index {
                                assert(current_states@[keep_index as int].w < current_states@[change_index as int].w);
                            }
                        }
                    }
                }
                change_index = change_index + 1;
            } else {
                let keep_state = current_states[keep_index];
                if keep_state.w <= self.max_state_weight {
                    if next_states.len() == 0 || keep_state.p > last_profit(next_states) {
                        let upper_bound = self.upper_bound(
                            UBCheck {
                                next_s: Some(self.s),
                                next_t: self.t,
                                new_profit: keep_state.p,
                                new_weight: keep_state.w,
                            },
                        );
                        if upper_bound > self.lower_bound as u128 {
                            let mut new_state = keep_state;
                            new_state.sol.add_decision(false);
                            proof {
                                let h = history(tree, keep_state.sol, lvl);
                                assert(self.state_ok(tree, io0, keep_state, lvl));
                                assert(history(tree, new_state.sol, lvl + 1) =~= h.push(false));
                                self.lemma_selection_step(tree, io0, keep_state, lvl, new_state.sol, o, false);
                                let sel = self.selection(tree, io0, keep_state.sol, lvl);
                                assert(sel.update(o as int, false) =~= sel);
                            }
                            let ghost before = next_states@;
                            place_state(next_states, new_state);
                            proof {
                                assert forall|k: int| 0 <= k < next_states@.len() implies self.state_ok(
                                    tree,
                                    io0.push(o),
                                    #[trigger] next_states@[k],
                                    lvl + 1,
                                ) by {
                                    if k < next_states@.len() - 1 {
                                        assert(next_states@[k] == before[k]);
                                    }
                                }
                                assert(current_states@[keep_index as int].w == new_state.w);
                                self.lemma_placed(self0.lower_bound as int, before, next_states@, new_state);
lemma_successors_placed(before, next_states@, new_state, current_states@, item.weight as int, item.value as int, keep_index as int);
lemma_weights_placed(before, next_states@, new_state, self.max_state_weight as int);
if self.lower_bound > start.lower_bound {
    lemma_best_placed(before, next_states@, new_state, self.capacity(), self.lower_bound as int, self.best_sol, self.best_sol_weight as int);
}
                            }
                        }
                    }
                }
                proof {
                    let cand = current_states@[keep_index as int];
                    if next_states@.len() > 0 && next_states@.last().w <= cand.w && next_states@.last().p >= cand.p {
                        assert(next_states@[next_states@.len() - 1] == next_states@.last());
                    }
                    assert(self.handled(next_states@, cand.w as int, cand.p as int, Some(start.s), self.t as int));
                    self.lemma_still_handled(self0.lower_bound as int, next0, next_states@, current_states@,
                        keep_index as int + 1, change_index as int, true, item.weight as int, item.value as int,
                        Some(start.s), self.t as int);
                    if keep_index + 1 < state_count {
                        assert(current_states@[keep_index as int].w < current_states@[keep_index + 1].w);
                    }
                }
                keep_index = keep_index + 1;
            }
        }
        proof {
            self.lemma_covers_carried(&start, io0, current_states@);
            self.lemma_next_covers(
                start.lower_bound as int,
                io0,
                o,
                current_states@,
                next_states@,
                item.weight as int,
                item.value as int,
                Some(start.s),
                self.t as int,
            );
        }
    }

    /// Expands the core to the left by the item before position `s`: every
    /// state either keeps its decision on the item (it stays in) or changes
    /// it (the item is dropped). The streams are merged as in `add_item_t`.
    #[verifier::rlimit(80)]
    fn remove_item_s(&mut self, current_states: &Vec<State>, next_states: &mut Vec<State>, sol_tree: &SolTree)
        requires
            old(self).inv(sol_tree@),
            old(self).s > 0,
            old(self).frontier_ok(
                sol_tree@,
                old(self).item_order@,
                current_states@,
                old(self).sol_level as nat,
            ),
            old(next_states)@.len() == 0,
            old(self).search_ok(old(self).item_order@, current_states@),
        ensures
            final(self).inv(sol_tree@),
            final(self).search_ok(final(self).item_order@, final(next_states)@),
            final(self).same_setting(old(self)),
            final(self).t == old(self).t,
            final(self).s == old(self).s - 1,
            final(self).sol_level == old(self).sol_level,
            final(self).lower_bound >= old(self).lower_bound,
            final(self).frontier_ok(
                sol_tree@,
                final(self).item_order@,
                final(next_states)@,
                old(self).sol_level as nat + 1,
            ),
            dominance_free(final(next_states)@),
            final(self).item_order@ == old(self).item_order@.push(old(self).order@[old(self).s - 1]),
            successors_of(final(next_states)@, current_states@, -old(self).items()[old(self).order@[old(self).s - 1] as int].weight, -old(self).items()[old(self).order@[old(self).s - 1] as int].value),
            forall|k: int|
                0 <= k < current_states@.len() ==> final(self).handled(
                    final(next_states)@,
                    (#[trigger] current_states@[k]).w as int,
                    current_states@[k].p as int,
                    if old(self).s > 1 { Some((old(self).s - 2) as usize) } else { None::<usize> },
                    final(self).t - 1,
                ) && final(self).handled(
                    final(next_states)@,
                    current_states@[k].w + -old(self).items()[old(self).order@[old(self).s - 1] as int].weight,
                    current_states@[k].p + -old(self).items()[old(self).order@[old(self).s - 1] as int].value,
                    if old(self).s > 1 { Some((old(self).s - 2) as usize) } else { None::<usize> },
                    final(self).t - 1,
                ),
            forall|m: int|
                0 <= m < final(next_states)@.len() && (#[trigger] final(next_states)@[m]).w
                    <= final(self).capacity() ==> final(next_states)@[m].p <= final(self).lower_bound,
            final(self).lower_bound == old(self).lower_bound ==> final(self).best_sol == old(self).best_sol
                && final(self).best_sol_level == old(self).best_sol_level && final(self).best_sol_len
                == old(self).best_sol_len && final(self).best_sol_weight == old(self).best_sol_weight,
            final(self).lower_bound > old(self).lower_bound ==> holds_best(
                final(next_states)@,
                final(self).capacity(),
                final(self).lower_bound as int,
                final(self).best_sol,
                final(self).best_sol_weight as int,
            ) && final(self).best_sol_level == old(self).sol_level + 1 && final(self).best_sol_len
                == final(self).item_order@.len(),
    {
        let ghost tree = sol_tree@;
        let ghost io0 = self.item_order@;
        let ghost lvl = self.sol_level as nat;
        let ghost start = *self;
        self.s = self.s - 1;
        let pos = self.s;
        self.add_to_item_order(pos);
        let item = self.item(pos);
        let ghost o = self.order@[pos as int];
        proof {
            assert(self.item_order@.take(self.best_sol_len as int) =~= io0.take(self.best_sol_len as int));
            assert forall|k: int| 0 <= k < self.positions@.len() implies self.s <= #[trigger] self.positions@[k]
                < self.t && self.item_order@[k] == self.order@[self.positions@[k]] by {
                if k < io0.len() {
                    assert(self.positions@[k] == start.positions@[k]);
                }
            }
            assert forall|j: int| self.s <= j < self.t implies self.item_order@.contains(
                #[trigger] self.order@[j],
            ) by {
                if j > pos {
                    let k = choose|k: int| 0 <= k < io0.len() && io0[k] == self.order@[j];
                    assert(self.item_order@[k] == io0[k]);
                } else {
                    assert(self.item_order@[io0.len() as int] == self.order@[j]);
                }
            }
            assert forall|k: int| 0 <= k < io0.len() implies #[trigger] io0[k] < self.items().len()
                && io0[k] != o by {
                let pk = start.positions@[k];
                assert(io0[k] == self.order@[pk]);
                assert(self.order@.no_duplicates());
            }
            assert(self.break_dec()[o as int]) by {
                let tb = self.order@.take(self.break_solution.break_item as int);
                assert(tb[pos as int] == o);
            }
        }
        let state_count = current_states.len();
        let mut change_index: usize = 0;
        let mut keep_index: usize = 0;
        let next_s = if self.s > 0 {
            Some(self.s - 1)
        } else {
            None
        };
        while change_index != state_count || keep_index != state_count
            invariant
                tree == sol_tree@,
                self.inv(tree),
                self.same_setting(&start),
                self.item_order@ == io0.push(o),
                self.t == start.t,
                self.t >= 1,
                self.s == pos,
                self.sol_level == lvl,
                self.lower_bound >= start.lower_bound,
                o == self.order@[pos as int],
                o < self.items().len(),
                item == self.items()[o as int],
                item.weight > 0,
                self.break_dec()[o as int],
                forall|k: int| 0 <= k < io0.len() ==> #[trigger] io0[k] < self.items().len() && io0[k] != o,
                self.frontier_ok(tree, io0, current_states@, lvl),
                state_count == current_states@.len(),
                change_index <= state_count,
                keep_index <= state_count,
                change_index < state_count ==> keep_index < state_count,
                self.frontier_ok(tree, io0.push(o), next_states@, lvl + 1),
                next_states@.len() > 0 && keep_index < state_count ==> next_states@.last().w
                    <= current_states@[keep_index as int].w,
                next_states@.len() > 0 && change_index < state_count ==> next_states@.last().w
                    + item.weight <= current_states@[change_index as int].w,
                next_s == (if pos > 0 { Some((pos - 1) as usize) } else { None::<usize> }),
                start.search_ok(io0, current_states@),
                successors_of(next_states@, current_states@, -item.weight, -item.value),
                self.lower_bound == start.lower_bound ==> self.best_sol == start.best_sol
                    && self.best_sol_level == start.best_sol_level && self.best_sol_len == start.best_sol_len
                    && self.best_sol_weight == start.best_sol_weight,
                self.lower_bound > start.lower_bound ==> holds_best(
                    next_states@,
                    self.capacity(),
                    self.lower_bound as int,
                    self.best_sol,
                    self.best_sol_weight as int,
                ) && self.best_sol_level == lvl + 1 && self.best_sol_len == io0.len() + 1,
                forall|k: int|
                    0 <= k < keep_index ==> self.handled(
                        next_states@,
                        (#[trigger] current_states@[k]).w as int,
                        current_states@[k].p as int,
                        next_s,
                        self.t - 1,
                    ),
                forall|k: int|
                    0 <= k < change_index ==> self.handled(
                        next_states@,
                        (#[trigger] current_states@[k]).w + (-item.weight),
                        current_states@[k].p + (-item.value),
                        next_s,
                        self.t - 1,
                    ),
                forall|m: int|
                    0 <= m < next_states@.len() && (#[trigger] next_states@[m]).w <= self.capacity()
                        ==> next_states@[m].p <= self.lower_bound,
            decreases 2 * state_count - change_index - keep_index,
        {
            let ghost self0 = *self;
            let ghost next0 = next_states@;
            proof {
                if change_index < state_count {
                    let st = current_states@[change_index as int];
                    assert(self.state_ok(tree, io0, st, lvl));
                    self.lemma_selection_basics(tree, io0, st, lvl, o);
                    self.lemma_state_sums(tree, io0, st, lvl, o);
                }
            }
            if change_index >= state_count || current_states[keep_index].w
                <= current_states[change_index].w - item.weight {
                let keep_state = current_states[keep_index];
                if keep_state.w <= self.max_state_weight {
                    if next_states.len() == 0 || keep_state.p > last_profit(next_states) {
                        let upper_bound = self.upper_bound(
                            UBCheck {
                                next_s,
                                next_t: self.t - 1,
                                new_profit: keep_state.p,
                                new_weight: keep_state.w,
                            },
                        );
                        if upper_bound > self.lower_bound as u128 {
                            let mut new_state = keep_state;
                            new_state.sol.add_decision(false);
                            proof {
                                let h = history(tree, keep_state.sol, lvl);
                                assert(self.state_ok(tree, io0, keep_state, lvl));
                                assert(history(tree, new_state.sol, lvl + 1) =~= h.push(false));
                                self.lemma_selection_step(tree, io0, keep_state, lvl, new_state.sol, o, false);
                                let sel = self.selection(tree, io0, keep_state.sol, lvl);
                                assert(sel.update(o as int, true) =~= sel);
                            }
                            let ghost before = next_states@;
                            place_state(next_states, new_state);
                            proof {
                                assert forall|k: int| 0 <= k < next_states@.len() implies self.state_ok(
                                    tree,
                                    io0.push(o),
                                    #[trigger] next_states@[k],
                                    lvl + 1,
                                ) by {
                                    if k < next_states@.len() - 1 {
                                        assert(next_states@[k] == before[k]);
                                    }
                                }
                                assert(current_states@[keep_index as int].w == new_state.w);
                                self.lemma_placed(self0.lower_bound as int, before, next_states@, new_state);
lemma_successors_placed(before, next_states@, new_state, current_states@, -item.weight, -item.value, keep_index as int);
if self.lower_bound > start.lower_bound {
    lemma_best_placed(before, next_states@, new_state, self.capacity(), self.lower_bound as int, self.best_sol, self.best_sol_weight as int);
}
                            }
                        }
                    }
                }
                proof {
                    let cand = current_states@[keep_index as int];
                    if next_states@.len() > 0 && next_states@.last().w <= cand.w && next_states@.last().p >= cand.p {
                        assert(next_states@[next_states@.len() - 1] == next_states@.last());
                    }
                    assert(self.handled(next_states@, cand.w as int, cand.p as int, next_s, self.t - 1));
                    self.lemma_still_handled(self0.lower_bound as int, next0, next_states@, current_states@,
                        keep_index as int + 1, change_index as int, true, -item.weight, -item.value,
                        next_s, self.t - 1);
                    if keep_index + 1 < state_count {
                        assert(current_states@[keep_index as int].w < current_states@[keep_index + 1].w);
                    }
                    if change_index < state_count && keep_index + 1 == state_count {
                        assert(current_states@[change_index as int].w <= current_states@[keep_index as int].w) by {
                            if change_index < keep_index {
                                assert(current_states@[change_index as int].w < current_states@[keep_index as int].w);
                            }
                        }
                    }
                }
                keep_index = keep_index + 1;
            } else {
                let change_state = current_states[change_index];
                let change_weight = change_state.w - item.weight;
                let change_profit = change_state.p - item.value;
                if next_states.len() == 0 || change_profit > last_profit(next_states) {
                    let upper_bound = self.upper_bound(
                        UBCheck {
                            next_s,
                            next_t: self.t - 1,
                            new_profit: change_profit,
                            new_weight: change_weight,
                        },
                    );
                    if upper_bound > self.lower_bound as u128 {
                        let mut change_sol = change_state.sol;
                        change_sol.add_decision(true);
                        let new_state = State { p: change_profit, w: change_weight, sol: change_sol };
                        proof {
                            let h = history(tree, change_state.sol, lvl);
                            assert(history(tree, change_sol, lvl + 1) =~= h.push(true));
                            self.lemma_selection_step(tree, io0, change_state, lvl, change_sol, o, true);
                            let sel = self.selection(tree, io0, change_state.sol, lvl);
                            crate::problem::lemma_unselect_item(self.items(), sel, o as int);
                        }
                        self.check_for_new_lower_bound(&new_state, Ghost(tree));
                        let ghost before = next_states@;
                        place_state(next_states, new_state);
                        proof {
                            assert forall|k: int| 0 <= k < next_states@.len() implies self.state_ok(
                                tree,
                                io0.push(o),
                                #[trigger] next_states@[k],
                                lvl + 1,
                            ) by {
                                if k < next_states@.len() - 1 {
                                    assert(next_states@[k] == before[k]);
                                }
                            }
    self.lemma_placed(self0.lower_bound as int, before, next_states@, new_state);
lemma_successors_placed(before, next_states@, new_state, current_states@, -item.weight, -item.value, change_index as int);
if self.lower_bound > self0.lower_bound {
    assert(next_states@[next_states@.len() - 1] == new_state);
} else if self.lower_bound > start.lower_bound {
    lemma_best_placed(before, next_states@, new_state, self.capacity(), self.lower_bound as int, self.best_sol, self.best_sol_weight as int);
}
                        }
                    }
                }
                proof {
                    let cand = current_states@[change_index as int];
                    let (cw, cp) = (cand.w - item.weight, cand.p - item.value);
                    if next_states@.len() > 0 && next_states@.last().w <= cw && next_states@.last().p >= cp {
                        assert(next_states@[next_states@.len() - 1] == next_states@.last());
                    }
                    assert(self.handled(next_states@, cw, cp, next_s, self.t - 1));
                    self.lemma_still_handled(self0.lower_bound as int, next0, next_states@, current_states@,
                        keep_index as int, change_index as int + 1, false, -item.weight, -item.value,
                        next_s, self.t - 1);
                    if change_index + 1 < state_count {
                        assert(current_states@[change_index as int].w < current_states@[change_index + 1].w);
                    }
                }
                change_index = change_index + 1;
            }
        }
        proof {
            self.lemma_covers_carried(&start, io0, current_states@);
            self.lemma_next_covers(
                start.lower_bound as int,
                io0,
                o,
                current_states@,
                next_states@,
                -item.weight,
                -item.value,
                next_s,
                self.t - 1,
            );
        }
    }

    /// A state keeps standing for its selection when the tree grows and
    /// keeps every chain that the state's crumb can reach.
    proof fn lemma_state_ok_grown_tree(
        &self,
        tree: Seq<SolCrumb>,
        tree2: Seq<SolCrumb>,
        io: Seq<usize>,
        st: State,
        level: nat,
    )
        requires
            self.state_ok(tree, io, st, level),
            tree.len() <= tree2.len(),
            forall|idx: int| 0 <= idx < tree.len() ==> #[trigger] crate::sol_tree::chain_bits(tree2, idx)
                == crate::sol_tree::chain_bits(tree, idx),
        ensures
            self.state_ok(tree2, io, st, level),
    {
        assert(crate::sol_tree::chain_bits(tree2, st.sol.previous as int) == crate::sol_tree::chain_bits(
            tree,
            st.sol.previous as int,
        ));
        assert(history(tree2, st.sol, level) == history(tree, st.sol, level));
    }

    /// Counts the decision just added to every state; after 64 of them, every
    /// state's crumb is committed to the tree.
    fn backup_solution_history(&mut self, sol_tree: &mut SolTree, current_states: &mut Vec<State>)
        requires
            old(self).inv(old(sol_tree)@),
            old(self).frontier_ok(
                old(sol_tree)@,
                old(self).item_order@,
                old(current_states)@,
                old(self).sol_level as nat + 1,
            ),
        ensures
            final(self).inv(final(sol_tree)@),
            final(self).same_setting(old(self)),
            final(self).item_order == old(self).item_order,
            final(self).s == old(self).s,
            final(self).t == old(self).t,
            final(self).lower_bound == old(self).lower_bound,
            final(self).best_sol_weight == old(self).best_sol_weight,
            final(current_states)@.len() == old(current_states)@.len(),
            forall|k: int|
                0 <= k < final(current_states)@.len() ==> (#[trigger] final(current_states)@[k]).w == old(
                    current_states,
                )@[k].w && final(current_states)@[k].p == old(current_states)@[k].p,
            final(self).frontier_ok(
                final(sol_tree)@,
                final(self).item_order@,
                final(current_states)@,
                final(self).sol_level as nat,
            ),
            old(self).sol_level + 1 < 64 ==> final(self).sol_level == old(self).sol_level + 1
                && final(current_states)@ == old(current_states)@ && final(sol_tree)@ == old(sol_tree)@,
            old(self).sol_level + 1 >= 64 ==> final(self).sol_level == 0 && final(sol_tree)@ == old(
                sol_tree,
            )@ + old(current_states)@.map_values(|st: State| st.sol) && forall|i: int|
                0 <= i < final(current_states)@.len() ==> (#[trigger] final(current_states)@[i]).sol
                    == (SolCrumb { recent: 0, previous: (old(sol_tree)@.len() + i) as usize }),
    {
        self.sol_level = self.sol_level + 1;
        if self.sol_level >= 64 {
            self.sol_level = 0;
            let ghost io = self.item_order@;
            let ghost states0 = current_states@;
            let ghost t0 = sol_tree@;
            let mut k: usize = 0;
            proof {
                assert(t0 + states0.take(0).map_values(|st: State| st.sol) =~= t0);
            }
            while k < current_states.len()
                invariant
                    self.static_wf(),
                    self.core_wf(),
                    self.item_order@ == io,
                    self.best_wf(sol_tree@),
                    sol_tree.wf(),
                    sol_tree@ == t0 + states0.take(k as int).map_values(|st: State| st.sol),
                    forall|j: int|
                        0 <= j < k ==> (#[trigger] current_states@[j]).sol == (SolCrumb {
                            recent: 0,
                            previous: (t0.len() + j) as usize,
                        }),
                    current_states@.len() == states0.len(),
                    dominance_free(states0),
                    0 <= k <= current_states@.len(),
                    forall|j: int|
                        0 <= j < current_states@.len() ==> (#[trigger] current_states@[j]).w == states0[j].w
                            && current_states@[j].p == states0[j].p,
                    forall|j: int|
                        0 <= j < k ==> self.state_ok(sol_tree@, io, #[trigger] current_states@[j], 0),
                    forall|j: int|
                        k <= j < current_states@.len() ==> #[trigger] current_states@[j] == states0[j]
                            && self.state_ok(sol_tree@, io, states0[j], 64),
                decreases current_states@.len() - k,
            {
                let ghost tree0 = sol_tree@;
                let ghost before = current_states@;
                let mut st = current_states[k];
                sol_tree.fresh_crumb(&mut st.sol);
                current_states.set(k, st);
                proof {
                    assert(states0.take(k + 1).map_values(|st: State| st.sol) =~= states0.take(
                        k as int,
                    ).map_values(|st: State| st.sol).push(states0[k as int].sol));
                    assert(sol_tree@ =~= t0 + states0.take(k + 1).map_values(|st: State| st.sol));
                    assert forall|j: int| 0 <= j < k + 1 implies (#[trigger] current_states@[j]).sol
                        == (SolCrumb { recent: 0, previous: (t0.len() + j) as usize }) by {
                        if j < k {
                            assert(current_states@[j] == before[j]);
                        }
                    }
                    let tree1 = sol_tree@;
                    assert(self.best_wf(tree1)) by {
                        assert(crate::sol_tree::chain_bits(tree1, self.best_sol.previous as int)
                            == crate::sol_tree::chain_bits(tree0, self.best_sol.previous as int));
                        assert(history(tree1, self.best_sol, self.best_sol_level as nat) == history(
                            tree0,
                            self.best_sol,
                            self.best_sol_level as nat,
                        ));
                    }
                    assert forall|j: int| 0 <= j < k implies self.state_ok(
                        tree1,
                        io,
                        #[trigger] current_states@[j],
                        0,
                    ) by {
                        assert(current_states@[j] == before[j]);
                        self.lemma_state_ok_grown_tree(tree0, tree1, io, before[j], 0);
                    }
                    assert forall|j: int| k < j < current_states@.len() implies #[trigger] current_states@[j]
                        == states0[j] && self.state_ok(tree1, io, states0[j], 64) by {
                        assert(current_states@[j] == before[j]);
                        self.lemma_state_ok_grown_tree(tree0, tree1, io, states0[j], 64);
                    }
                    assert(self.state_ok(tree1, io, current_states@[k as int], 0));
                }
                k = k + 1;
            }
            proof {
                assert(states0.take(states0.len() as int) =~= states0);
                assert forall|i: int, j: int| 0 <= i < j < current_states@.len() implies (#[trigger] current_states@[i]).w
                    < (#[trigger] current_states@[j]).w && current_states@[i].p < current_states@[j].p by {
                    assert(states0[i].w < states0[j].w);
                }
            }
        }
    }

    /// Replays the best state's history onto the break decision, which
    /// leaves `decision` holding the best selection found.
    fn backtrack_decision(&mut self, sol_tree: &SolTree)
        requires
            old(self).inv(sol_tree@),
        ensures
            final(self).item_order@ == old(self).item_order@.take(old(self).best_sol_len as int),
            final(self).item_order@.len() == old(self).best_sol_len,
            final(self).problem == old(self).problem,
            final(self).order == old(self).order,
            final(self).break_solution == old(self).break_solution,
            final(self).lower_bound == old(self).lower_bound,
            final(self).best_sol_weight == old(self).best_sol_weight,
            final(self).decision@.len() == old(self).items().len(),
            selected_weight(old(self).items(), final(self).decision@) == old(self).best_sol_weight,
            selected_value(old(self).items(), final(self).decision@) == old(self).lower_bound,
            old(self).best_sol_weight <= old(self).capacity(),
    {
        let ghost start = *self;
        self.item_order.truncate(self.best_sol_len);
        proof {
            assert(self.item_order@ =~= start.item_order@.take(self.best_sol_len as int));
            assert forall|k: int| 0 <= k < self.item_order@.len() implies #[trigger] self.item_order@[k]
                < self.decision@.len() by {
                assert(self.item_order@[k] == start.item_order@[k]);
                let pk = start.positions@[k];
                assert(start.item_order@[k] == self.order@[pk]);
            }
        }
        sol_tree.backtrack(self.best_sol, self.best_sol_level, self.item_order.as_slice(), &mut self.decision);
        proof {
            crate::sol_tree::lemma_apply_flips_len(
                start.decision@,
                self.item_order@,
                history(sol_tree@, self.best_sol, self.best_sol_level as nat),
            );
        }
    }

    /// Builds the search: the efficiency order, the break solution, and an
    /// empty core at the break item.
    fn new(problem: &'a Problem) -> (r: Result<Instance<'a>, SolveError>)
        requires
            problem.sums_fit(),
        ensures
            r is Err <==> exists|i: int| 0 <= i < problem.items@.len() && #[trigger] problem.items@[i].weight == 0,
            r is Err ==> r == Err::<Instance<'a>, SolveError>(SolveError::InvalidInput),
            r matches Ok(inst) ==> inst.inv(seq![SolCrumb { recent: 0, previous: 0 }]) && inst.problem == problem
                && inst.item_order@.len() == 0 && inst.sol_level == 0 && inst.lower_bound == inst.break_solution.profit
                && inst.best_sol_weight == inst.break_solution.weight,
    {
        let order = match efficiency_ordering(problem) {
            Ok(order) => order,
            Err(e) => {
                return Err(e);
            },
        };
        let mut decision = vec![false; problem.items.len()];
        proof {
            assert(decision@ =~= crate::problem::none_selected(problem.items@.len()));
        }
        let break_solution = break_solution(problem, &order, &mut decision);
        let lower_bound = break_solution.profit;
        let b = break_solution.break_item;
        let max_state_weight = problem.capacity.saturating_add(break_solution.weight);
        let inst = Instance {
            problem,
            order,
            decision,
            item_order: Vec::new(),
            positions: Ghost(Seq::empty()),
            s: b,
            t: b,
            lower_bound,
            max_state_weight,
            best_sol: SolCrumb::new(0),
            best_sol_level: 0,
            best_sol_len: 0,
            best_sol_weight: break_solution.weight,
            sol_level: 0,
            break_solution,
        };
        proof {
            let tree = seq![SolCrumb { recent: 0, previous: 0 }];
            assert(crate::sol_tree::chain_bits(tree, 0) =~= Seq::<bool>::empty());
            assert(crate::sol_tree::crumb_bits(0, 0) =~= Seq::<bool>::empty());
            assert(history(tree, inst.best_sol, 0) =~= Seq::<bool>::empty());
            assert(inst.item_order@.take(0) =~= Seq::<usize>::empty());
        }
        Ok(inst)
    }

    /// Runs the core expansion until the core spans every item, the frontier
    /// is empty, or a state fills the knapsack exactly; then writes the best
    /// selection found into `decision`.
    fn solve(&mut self)
        requires
            old(self).inv(seq![SolCrumb { recent: 0, previous: 0 }]),
            old(self).item_order@.len() == 0,
            old(self).sol_level == 0,
            old(self).lower_bound == old(self).break_solution.profit,
            old(self).best_sol_weight == old(self).break_solution.weight,
        ensures
            final(self).problem == old(self).problem,
            final(self).order == old(self).order,
            final(self).break_solution == old(self).break_solution,
            final(self).decision@.len() == old(self).items().len(),
            selected_weight(old(self).items(), final(self).decision@) == final(self).best_sol_weight,
            selected_value(old(self).items(), final(self).decision@) == final(self).lower_bound,
            final(self).best_sol_weight <= old(self).capacity(),
            final(self).lower_bound >= old(self).break_solution.profit,
            final(self).best_sol_weight < old(self).capacity() ==> forall|x: Seq<bool>|
                #[trigger] crate::problem::feasible(old(self).items(), old(self).capacity(), x)
                    ==> selected_value(old(self).items(), x) <= final(self).lower_bound,
    {
        let n = self.order.len();
        if self.break_solution.break_item == n {
            self.best_sol_weight = self.break_solution.weight;
            proof {
                assert forall|x: Seq<bool>| #[trigger] crate::problem::feasible(self.items(), self.capacity(), x)
                    implies selected_value(self.items(), x) <= self.lower_bound by {
                    lemma_linear_bound(
                        self.items(),
                        self.capacity(),
                        self.order@,
                        self.break_solution.break_item as int,
                        x,
                    );
                }
            }
            return;
        }
        let ghost start = *self;
        let mut current_states: Vec<State> = Vec::new();
        let mut next_states: Vec<State> = Vec::new();
        let mut i: usize = 0;
        current_states.push(
            State { p: self.break_solution.profit, w: self.break_solution.weight, sol: SolCrumb::new(0) },
        );
        let mut sol_tree = SolTree::new();
        proof {
            let tree = sol_tree@;
            let st = current_states@[0];
            assert(crate::sol_tree::chain_bits(tree, 0) =~= Seq::<bool>::empty());
            assert(crate::sol_tree::crumb_bits(0, 0) =~= Seq::<bool>::empty());
            assert(history(tree, st.sol, 0) =~= Seq::<bool>::empty());
            assert(self.selection(tree, self.item_order@, st.sol, 0) == self.break_dec());
            assert(self.state_ok(tree, self.item_order@, st, 0));
            assert(self.frontier_ok(tree, self.item_order@, current_states@, 0));
            assert forall|x: Seq<bool>| #[trigger] self.improves(x) implies exists|k: int|
                0 <= k < current_states@.len() && #[trigger] self.covers(
                    self.item_order@,
                    current_states@[k].w as int,
                    current_states@[k].p as int,
                    x,
                ) by {
                assert(self.hybrid(self.item_order@, x) =~= self.break_dec());
                assert(self.covers(self.item_order@, st.w as int, st.p as int, x));
            }
            assert(self.search_ok(self.item_order@, current_states@));
        }
        let capacity = self.problem.capacity;
        while !current_states.is_empty() && i < n && self.best_sol_weight != capacity
            invariant
                self.inv(sol_tree@),
                self.same_setting(&start),
                capacity == self.problem.capacity,
                n == self.order@.len(),
                i == self.item_order@.len(),
                self.lower_bound >= start.lower_bound,
                self.frontier_ok(sol_tree@, self.item_order@, current_states@, self.sol_level as nat),
                self.search_ok(self.item_order@, current_states@),
                next_states@.len() == 0,
            decreases n - i,
        {
            if self.t < n {
                self.add_item_t(&current_states, &mut next_states, &sol_tree);
                swap_state_buffers(&mut current_states, &mut next_states);
                let ghost built = current_states@;
                let ghost mid = *self;
                self.backup_solution_history(&mut sol_tree, &mut current_states);
                proof {
                    self.lemma_search_ok_transfer(&mid, self.item_order@, built);
                    self.lemma_search_ok_same_sums(self.item_order@, built, current_states@);
                }
                i = i + 1;
            }
            if self.best_sol_weight != capacity && self.s > 0 {
                self.remove_item_s(&current_states, &mut next_states, &sol_tree);
                swap_state_buffers(&mut current_states, &mut next_states);
                let ghost built = current_states@;
                let ghost mid = *self;
                self.backup_solution_history(&mut sol_tree, &mut current_states);
                proof {
                    self.lemma_search_ok_transfer(&mid, self.item_order@, built);
                    self.lemma_search_ok_same_sums(self.item_order@, built, current_states@);
                }
                i = i + 1;
            }
        }
        proof {
            if self.best_sol_weight != capacity {
                assert forall|x: Seq<bool>| #[trigger] crate::problem::feasible(self.items(), self.capacity(), x)
                    implies selected_value(self.items(), x) <= self.lower_bound by {
                    if selected_value(self.items(), x) > self.lower_bound {
                        assert(self.improves(x));
                        let k = choose|k: int| 0 <= k < current_states@.len() && #[trigger] self.covers(
                            self.item_order@,
                            current_states@[k].w as int,
                            current_states@[k].p as int,
                            x,
                        );
                        self.lemma_full_core_hybrid(x);
                    }
                }
            }
        }
        self.backtrack_decision(&sol_tree);
    }

    /// Once the core spans every item, a selection that fits is its own
    /// hybrid.
    proof fn lemma_full_core_hybrid(&self, x: Seq<bool>)
        requires
            self.static_wf(),
            self.core_wf(),
            self.s == 0,
            self.t == self.order@.len(),
            crate::problem::feasible(self.items(), self.capacity(), x),
        ensures
            self.hybrid(self.item_order@, x) == x,
    {
        let items = self.items();
        let order = self.order@;
        let io = self.item_order@;
        let bd = self.break_dec();
        let b = self.break_solution.break_item as int;
        assert forall|i: int| 0 <= i < items.len() implies #[trigger] self.hybrid(io, x)[i] == x[i] by {
            if !io.contains(i as usize) {
                if order.contains(i as usize) {
                    let j = choose|j: int| 0 <= j < order.len() && #[trigger] order[j] == i as usize;
                    assert(io.contains(order[j]));
                }
                if x[i] {
                    crate::problem::lemma_unselect_item(items, x, i);
                    lemma_selection_bounds(items, x.update(i, false));
                }
                if bd[i] {
                    let tb = order.take(b);
                    let j = choose|j: int| 0 <= j < tb.len() && #[trigger] tb[j] == i as usize;
                    assert(order[j] == i as usize);
                }
            }
        }
        assert(self.hybrid(io, x) =~= x);
    }

    /// `search_ok` holds alike for instances of the same setting and lower
    /// bound.
    proof fn lemma_search_ok_transfer(&self, other: &Instance, io: Seq<usize>, states: Seq<State>)
        requires
            self.same_setting(other),
            self.lower_bound == other.lower_bound,
            other.search_ok(io, states),
        ensures
            self.search_ok(io, states),
    {
        assert forall|x: Seq<bool>| #[trigger] self.improves(x) implies exists|k: int|
            0 <= k < states.len() && #[trigger] self.covers(io, states[k].w as int, states[k].p as int, x) by {
            assert(other.improves(x));
            let k = choose|k: int| 0 <= k < states.len() && #[trigger] other.covers(io, states[k].w as int, states[k].p as int, x);
            assert(other.hybrid(io, x) =~= self.hybrid(io, x));
            assert(self.covers(io, states[k].w as int, states[k].p as int, x));
        }
    }

    /// `search_ok` speaks of states only through their weights and profits.
    proof fn lemma_search_ok_same_sums(&self, io: Seq<usize>, a: Seq<State>, b: Seq<State>)
        requires
            self.search_ok(io, a),
            a.len() == b.len(),
            forall|k: int| 0 <= k < b.len() ==> (#[trigger] b[k]).w == a[k].w && b[k].p == a[k].p,
        ensures
            self.search_ok(io, b),
    {
        assert forall|k: int| 0 <= k < b.len() && (#[trigger] b[k]).w <= self.capacity() implies b[k].p
            <= self.lower_bound by {
            assert(a[k].w == b[k].w);
        }
        assert forall|x: Seq<bool>| #[trigger] self.improves(x) implies exists|k: int|
            0 <= k < b.len() && #[trigger] self.covers(io, b[k].w as int, b[k].p as int, x) by {
            let k = choose|k: int| 0 <= k < a.len() && #[trigger] self.covers(io, a[k].w as int, a[k].p as int, x);
            assert(b[k].w == a[k].w && b[k].p == a[k].p);
        }
    }

    /// Records `item_order` entry for the item at position `pos` of the
    /// efficiency order.
    fn add_to_item_order(&mut self, pos: usize)
        requires
            pos < old(self).order@.len(),
        ensures
            final(self).item_order@ == old(self).item_order@.push(old(self).order@[pos as int]),
            final(self).positions@ == old(self).positions@.push(pos as int),
            final(self).problem == old(self).problem,
            final(self).order == old(self).order,
            final(self).break_solution == old(self).break_solution,
            final(self).decision == old(self).decision,
            final(self).s == old(self).s,
            final(self).t == old(self).t,
            final(self).lower_bound == old(self).lower_bound,
            final(self).max_state_weight == old(self).max_state_weight,
            final(self).best_sol == old(self).best_sol,
            final(self).best_sol_level == old(self).best_sol_level,
            final(self).best_sol_len == old(self).best_sol_len,
            final(self).best_sol_weight == old(self).best_sol_weight,
            final(self).sol_level == old(self).sol_level,
    {
        let index = self.order[pos];
        self.item_order.push(index);
        self.positions = Ghost(self.positions@.push(pos as int));
    }

    /// A changed state that fits and beats the lower bound becomes the best
    /// state found so far.
    fn check_for_new_lower_bound(&mut self, s: &State, Ghost(tree): Ghost<Seq<SolCrumb>>)
        requires
            old(self).inv(tree),
            old(self).item_order@.len() > 0,
            old(self).state_ok(tree, old(self).item_order@, *s, old(self).sol_level as nat + 1),
        ensures
            final(self).inv(tree),
            final(self).lower_bound >= old(self).lower_bound,
            final(self).problem == old(self).problem,
            final(self).order == old(self).order,
            final(self).break_solution == old(self).break_solution,
            final(self).decision == old(self).decision,
            final(self).item_order == old(self).item_order,
            final(self).positions == old(self).positions,
            final(self).s == old(self).s,
            final(self).t == old(self).t,
            final(self).max_state_weight == old(self).max_state_weight,
            final(self).sol_level == old(self).sol_level,
            s.w <= final(self).capacity() ==> s.p <= final(self).lower_bound,
            if s.w <= old(self).capacity() && s.p > old(self).lower_bound {
                &&& final(self).lower_bound == s.p
                &&& final(self).best_sol == s.sol
                &&& final(self).best_sol_level == old(self).sol_level + 1
                &&& final(self).best_sol_len == old(self).item_order@.len()
                &&& final(self).best_sol_weight == s.w
            } else {
                &&& final(self).lower_bound == old(self).lower_bound
                &&& final(self).best_sol == old(self).best_sol
                &&& final(self).best_sol_level == old(self).best_sol_level
                &&& final(self).best_sol_len == old(self).best_sol_len
                &&& final(self).best_sol_weight == old(self).best_sol_weight
            },
    {
        if s.w <= self.problem.capacity && s.p > self.lower_bound {
            self.lower_bound = s.p;
            self.best_sol = s.sol;
            self.best_sol_level = self.sol_level + 1;
            self.best_sol_len = self.item_order.len();
            self.best_sol_weight = s.w;
            proof {
                assert(self.item_order@.take(self.best_sol_len as int) =~= self.item_order@);
            }
        }
    }
}

/// Empties `current_states` and exchanges it with `next_states`, so that the
/// frontier just built becomes current and its old buffer is reused.
fn swap_state_buffers(current_states: &mut Vec<State>, next_states: &mut Vec<State>)
    ensures
        final(current_states)@ == old(next_states)@,
        final(next_states)@.len() == 0,
{
    current_states.clear();
    std::mem::swap(current_states, next_states);
}

/// Solves the problem with MinKnap. An item of zero weight is refused with
/// `InvalidInput`. Otherwise the solution fits into the knapsack, its value
/// and weight are those of its decision vector, and its value lies between
/// that of the break solution and the linear-relaxation bound of an
/// efficiency order of the items. Unless the search stopped at a state that
/// fills the knapsack exactly, the solution is optimal: no selection that
/// fits is worth more, and its value is the dynamic program's best value.
pub fn solve(problem: &Problem) -> (r: Result<Solution, SolveError>)
    requires
        problem.sums_fit(),
    ensures
        r is Err <==> exists|i: int| 0 <= i < problem.items@.len() && #[trigger] problem.items@[i].weight == 0,
        r is Err ==> r == Err::<Solution, SolveError>(SolveError::InvalidInput),
        r matches Ok(sol) ==> sol.is_valid_for(problem),
        r matches Ok(sol) ==> (sol.weight < problem.capacity ==> forall|d: Seq<bool>|
            #[trigger] crate::problem::feasible(problem.items@, problem.capacity as int, d)
                ==> selected_value(problem.items@, d) <= sol.value),
        r matches Ok(sol) ==> (sol.weight < problem.capacity ==> sol.value
            == crate::dynamic::best_value(
            problem.items@,
            problem.items@.len() as int,
            problem.capacity as int,
        )),
        r matches Ok(sol) ==> exists|order: Seq<usize>, b: int|
            #[trigger] is_break_item(problem.items@, order, problem.capacity as int, b)
                && is_core_order(problem.items@, problem.capacity as int, order)
                && prefix_value(problem.items@, order, b) <= sol.value <= linear_profit(
                problem.items@,
                order,
                problem.capacity as int,
                b,
            ),
{
    let item_count = problem.items.len();
    let mut instance = match Instance::new(problem) {
        Ok(instance) => instance,
        Err(e) => {
            return Err(e);
        },
    };
    let ghost order = instance.order@;
    let ghost b = instance.break_solution.break_item as int;
    instance.solve();
    let solution = Solution {
        decision: instance.decision,
        value: instance.lower_bound,
        weight: instance.best_sol_weight,
    };
    proof {
        assert(item_count == problem.items@.len());
        lemma_linear_bound(problem.items@, problem.capacity as int, order, b, solution.decision@);
        assert(is_break_item(problem.items@, order, problem.capacity as int, b));
        if solution.weight < problem.capacity {
            crate::dynamic::lemma_optimum_is_best_value(
                problem.items@,
                problem.capacity as int,
                solution.decision@,
            );
        }
    }
    Ok(solution)
}

/// Profit of the last state; the frontier must not be empty.
fn last_profit(next_state: &Vec<State>) -> (r: usize)
    requires
        next_state@.len() > 0,
    ensures
        r == next_state@.last().p,
{
    next_state[next_state.len() - 1].p
}

/// Weight of the last state; the frontier must not be empty.
fn last_weight(next_state: &Vec<State>) -> (r: usize)
    requires
        next_state@.len() > 0,
    ensures
        r == next_state@.last().w,
{
    next_state[next_state.len() - 1].w
}

/// Some state of `next` weighs no more than `w` and earns at least `p`.
pub open spec fn dominated_in(next: Seq<State>, w: int, p: int) -> bool {
    exists|m: int| 0 <= m < next.len() && (#[trigger] next[m]).w <= w && next[m].p >= p
}

/// What `place_state` keeps dominated stays dominated.
proof fn lemma_dominated_kept(before: Seq<State>, after: Seq<State>, st: State, w: int, p: int)
    requires
        dominated_in(before, w, p),
        before.len() > 0 ==> before.last().p < st.p,
        after.len() > 0,
        after.last() == st,
        after.len() == before.len() + 1 || (after.len() == before.len() && before.len() > 0 && st.w
            == before.last().w),
        forall|k: int| 0 <= k < after.len() - 1 ==> #[trigger] after[k] == before[k],
    ensures
        dominated_in(after, w, p),
{
    let m = choose|m: int| 0 <= m < before.len() && (#[trigger] before[m]).w <= w && before[m].p >= p;
    if m < after.len() - 1 {
        assert(after[m] == before[m]);
    } else {
        assert(after[after.len() - 1] == st);
    }
}

/// `c` with one more decision recorded as its least significant bit.
pub open spec fn push_bit(c: SolCrumb, bit: bool) -> SolCrumb {
    SolCrumb {
        recent: ((c.recent << 1u64) | (if bit {
            1u64
        } else {
            0u64
        })),
        previous: c.previous,
    }
}

/// `x` is `y` after one more decision: kept (bit 0, same weight and profit),
/// or changed (bit 1, weight and profit moved by `dw` and `dp`).
pub open spec fn successor(x: State, y: State, dw: int, dp: int) -> bool {
    ||| x.w == y.w && x.p == y.p && x.sol == push_bit(y.sol, false)
    ||| x.w == y.w + dw && x.p == y.p + dp && x.sol == push_bit(y.sol, true)
}

/// `x` is a successor of some state of `cur`.
pub open spec fn has_parent(x: State, cur: Seq<State>, dw: int, dp: int) -> bool {
    exists|k: int| 0 <= k < cur.len() && #[trigger] successor(x, cur[k], dw, dp)
}

/// Every state of `next` is a successor of some state of `cur`.
pub open spec fn successors_of(next: Seq<State>, cur: Seq<State>, dw: int, dp: int) -> bool {
    forall|m: int| 0 <= m < next.len() ==> has_parent(#[trigger] next[m], cur, dw, dp)
}

/// No state of `next` weighs more than `max_weight`.
pub open spec fn weights_within(next: Seq<State>, max_weight: int) -> bool {
    forall|m: int| 0 <= m < next.len() ==> (#[trigger] next[m]).w <= max_weight
}

/// Some state of `next` fits, earns `lb`, and has crumb `sol` and weight `w`.
pub open spec fn holds_best(next: Seq<State>, capacity: int, lb: int, sol: SolCrumb, w: int) -> bool {
    exists|m: int|
        0 <= m < next.len() && (#[trigger] next[m]).w <= capacity && next[m].p == lb && next[m].sol
            == sol && next[m].w == w
}

/// `after` is `before` with `st` appended, or with its last state (of the
/// same weight as `st`) replaced by `st`.
pub open spec fn placed(before: Seq<State>, after: Seq<State>, st: State) -> bool {
    &&& after.len() > 0
    &&& after.last() == st
    &&& after.len() == before.len() + 1 || (after.len() == before.len() && before.len() > 0 && st.w
        == before.last().w)
    &&& forall|k: int| 0 <= k < after.len() - 1 ==> #[trigger] after[k] == before[k]
}

proof fn lemma_successors_placed(
    before: Seq<State>,
    after: Seq<State>,
    st: State,
    cur: Seq<State>,
    dw: int,
    dp: int,
    kn: int,
)
    requires
        successors_of(before, cur, dw, dp),
        0 <= kn < cur.len(),
        successor(st, cur[kn], dw, dp),
        placed(before, after, st),
    ensures
        successors_of(after, cur, dw, dp),
{
    assert forall|m: int| 0 <= m < after.len() implies has_parent(#[trigger] after[m], cur, dw, dp) by {
        if m < after.len() - 1 {
            assert(after[m] == before[m]);
        } else {
            assert(successor(after[m], cur[kn], dw, dp));
        }
    }
}

proof fn lemma_weights_placed(before: Seq<State>, after: Seq<State>, st: State, max_weight: int)
    requires
        weights_within(before, max_weight),
        st.w <= max_weight,
        placed(before, after, st),
    ensures
        weights_within(after, max_weight),
{
    assert forall|m: int| 0 <= m < after.len() implies (#[trigger] after[m]).w <= max_weight by {
        if m < after.len() - 1 {
            assert(after[m] == before[m]);
        }
    }
}

/// Placing a state that does not beat the lower bound keeps the best one.
proof fn lemma_best_placed(
    before: Seq<State>,
    after: Seq<State>,
    st: State,
    capacity: int,
    lb: int,
    sol: SolCrumb,
    w: int,
)
    requires
        holds_best(before, capacity, lb, sol, w),
        st.w <= capacity ==> st.p <= lb,
        before.len() > 0 ==> before.last().p < st.p,
        placed(before, after, st),
    ensures
        holds_best(after, capacity, lb, sol, w),
{
    let m = choose|m: int|
        0 <= m < before.len() && (#[trigger] before[m]).w <= capacity && before[m].p == lb && before[m].sol
            == sol && before[m].w == w;
    if m < after.len() - 1 {
        assert(after[m] == before[m]);
    } else {
        assert(m == before.len() - 1);
    }
}

/// Appends `st` to a frontier under construction, or replaces the last
/// state when `st` has the same weight (and, being later, more profit).
fn place_state(next_states: &mut Vec<State>, st: State)
    requires
        dominance_free(old(next_states)@),
        old(next_states)@.len() > 0 ==> old(next_states)@.last().w <= st.w && old(next_states)@.last().p
            < st.p,
    ensures
        dominance_free(final(next_states)@),
        placed(old(next_states)@, final(next_states)@, st),
        final(next_states)@.len() > 0,
        final(next_states)@.last() == st,
        final(next_states)@.len() == old(next_states)@.len() + 1 || (final(next_states)@.len() == old(
            next_states,
        )@.len() && old(next_states)@.len() > 0 && st.w == old(next_states)@.last().w),
        forall|k: int|
            0 <= k < final(next_states)@.len() - 1 ==> #[trigger] final(next_states)@[k] == old(
                next_states,
            )@[k],
{
    let n = next_states.len();
    if n > 0 && st.w == last_weight(next_states) {
        next_states.set(n - 1, st);
    } else {
        next_states.push(st);
    }
}

/// The break decision of the first `k` items of `order` weighs and is worth
/// as much as those items.
proof fn lemma_break_decision_sums(items: Seq<Item>, order: Seq<usize>, k: int)
    requires
        0 <= k <= order.len(),
        items.len() <= usize::MAX,
        order.no_duplicates(),
        forall|j: int| 0 <= j < order.len() ==> #[trigger] order[j] < items.len(),
    ensures
        selected_weight(items, break_decision(items.len(), order, k)) == prefix_weight(items, order, k),
        selected_value(items, break_decision(items.len(), order, k)) == prefix_value(items, order, k),
        break_decision(items.len(), order, k).len() == items.len(),
    decreases k,
{
    if k == 0 {
        assert(break_decision(items.len(), order, 0) =~= crate::problem::none_selected(items.len()));
        crate::problem::lemma_none_selected_sums(items);
    } else {
        lemma_break_decision_sums(items, order, k - 1);
        lemma_break_decision_step(items.len(), order, k - 1);
        lemma_select_item(items, break_decision(items.len(), order, k - 1), order[k - 1] as int);
    }
}

/// Trading selection `base` for `d` gains value at most at the efficiency of
/// `e` per unit of weight gained, when every item that `d` adds is at most
/// as efficient as `e` and every item that it drops is at least as efficient.
proof fn lemma_exchange(items: Seq<Item>, base: Seq<bool>, d: Seq<bool>, e: Item, k: int)
    requires
        d.len() == items.len(),
        base.len() == items.len(),
        0 <= k <= items.len(),
        forall|i: int| 0 <= i < items.len() && d[i] && !base[i] ==> eff_ge(e, #[trigger] items[i]),
        forall|i: int| 0 <= i < items.len() && !d[i] && base[i] ==> eff_ge(#[trigger] items[i], e),
    ensures
        e.weight * (crate::problem::sum_upto(crate::problem::values(items), d, k)
            - crate::problem::sum_upto(crate::problem::values(items), base, k)) <= e.value * (
        crate::problem::sum_upto(crate::problem::weights(items), d, k)
            - crate::problem::sum_upto(crate::problem::weights(items), base, k)),
    decreases k,
{
    let (ev, ew) = (e.value as int, e.weight as int);
    if k > 0 {
        lemma_exchange(items, base, d, e, k - 1);
        let i = k - 1;
        let it = items[i];
        let (iv, iw) = (it.value as int, it.weight as int);
        if d[i] && !base[i] {
            assert(eff_ge(e, items[i]));
            assert(ew * iv <= ev * iw) by (nonlinear_arith)
                requires
                    ev * iw >= iv * ew,
            ;
        } else if !d[i] && base[i] {
            assert(eff_ge(items[i], e));
        }
        let (v0, vb0, w0, wb0) = (
            crate::problem::sum_upto(crate::problem::values(items), d, i),
            crate::problem::sum_upto(crate::problem::values(items), base, i),
            crate::problem::sum_upto(crate::problem::weights(items), d, i),
            crate::problem::sum_upto(crate::problem::weights(items), base, i),
        );
        let dv = if d[i] { iv } else { 0 };
        let bv = if base[i] { iv } else { 0 };
        let dw = if d[i] { iw } else { 0 };
        let bw = if base[i] { iw } else { 0 };
        assert(ew * (dv - bv) <= ev * (dw - bw)) by (nonlinear_arith)
            requires
                (d[i] && !base[i]) ==> ew * iv <= ev * iw,
                (!d[i] && base[i]) ==> iv * ew >= ev * iw,
                dv == if d[i] { iv } else { 0 },
                bv == if base[i] { iv } else { 0 },
                dw == if d[i] { iw } else { 0 },
                bw == if base[i] { iw } else { 0 },
        ;
        assert(crate::problem::values(items)[i] == iv);
        assert(crate::problem::weights(items)[i] == iw);
        assert(ew * ((v0 + dv) - (vb0 + bv)) <= ev * ((w0 + dw) - (wb0 + bw))) by (nonlinear_arith)
            requires
                ew * (v0 - vb0) <= ev * (w0 - wb0),
                ew * (dv - bv) <= ev * (dw - bw),
        ;
        assert(crate::problem::sum_upto(crate::problem::values(items), d, k) == v0 + dv);
        assert(crate::problem::sum_upto(crate::problem::values(items), base, k) == vb0 + bv);
        assert(crate::problem::sum_upto(crate::problem::weights(items), d, k) == w0 + dw);
        assert(crate::problem::sum_upto(crate::problem::weights(items), base, k) == wb0 + bw);
    } else {
        assert(ew * (0 - 0) <= ev * (0 - 0)) by (nonlinear_arith);
    }
}

/// No selection that fits into the knapsack is worth more than the linear
/// relaxation bound of the break solution.
pub proof fn lemma_linear_bound(items: Seq<Item>, capacity: int, order: Seq<usize>, b: int, d: Seq<bool>)
    requires
        items.len() <= usize::MAX,
        is_core_order(items, capacity, order),
        is_break_item(items, order, capacity, b),
        crate::problem::feasible(items, capacity, d),
    ensures
        selected_value(items, d) <= linear_profit(items, order, capacity, b),
{
    let n = items.len();
    lemma_break_decision_sums(items, order, b);
    assert forall|i: int| 0 <= i < n && #[trigger] d[i] implies items[i].weight <= capacity by {
        crate::problem::lemma_unselect_item(items, d, i);
        lemma_selection_bounds(items, d.update(i, false));
    }
    let bd = break_decision(n, order, b);
    if b < order.len() {
        let e = items[order[b] as int];
        assert forall|i: int| 0 <= i < n && d[i] && !bd[i] implies eff_ge(e, #[trigger] items[i]) by {
            assert(order.contains(i as usize));
            let j = choose|j: int| 0 <= j < order.len() && #[trigger] order[j] == i as usize;
            if j < b {
                assert(order.take(b)[j] == i as usize);
            }
            if j > b {
                assert(eff_ge(items[order[b] as int], items[order[j] as int]));
            } else {
                assert(items[i] == e);
            }
        }
        assert forall|i: int| 0 <= i < n && !d[i] && bd[i] implies eff_ge(#[trigger] items[i], e) by {
            let tb = order.take(b);
            let j = choose|j: int| 0 <= j < tb.len() && #[trigger] tb[j] == i as usize;
            assert(order[j] == i as usize);
            assert(eff_ge(items[order[j] as int], items[order[b] as int]));
        }
        lemma_exchange(items, bd, d, e, n as int);
        let (ev, ew) = (e.value as int, e.weight as int);
        let (vd, pb, wd, wb) = (
            selected_value(items, d),
            prefix_value(items, order, b),
            selected_weight(items, d),
            prefix_weight(items, order, b),
        );
        assert(ew * (vd - pb) <= ev * (wd - wb));
        assert(wb < capacity || b == 0) by {
            if b > 0 {
                assert(prefix_weight(items, order, b - 1) + items[order[b - 1] as int].weight < capacity);
            }
        }
        lemma_prefix_weight_nonneg(items, order, b);
        let x = (capacity - wb) * ev;
        assert(ew * (vd - pb) <= x) by (nonlinear_arith)
            requires
                x == (capacity - wb) * ev,
                ew * (vd - pb) <= ev * (wd - wb),
                wd <= capacity,
                ev >= 0,
        ;
        assert(vd - pb <= (x + ew - 1) / ew) by (nonlinear_arith)
            requires
                ew * (vd - pb) <= x,
                ew > 0,
        ;
        assert(linear_profit(items, order, capacity, b) == pb + (x + ew - 1) / ew);
    } else {
        assert forall|i: int| 0 <= i < n && #[trigger] d[i] implies bd[i] by {
            assert(order.contains(i as usize));
            let j = choose|j: int| 0 <= j < order.len() && #[trigger] order[j] == i as usize;
            assert(order.take(b)[j] == i as usize);
        }
        lemma_subset_sum(crate::problem::values(items), d, bd, n as int);
    }
}

proof fn lemma_prefix_weight_nonneg(items: Seq<Item>, order: Seq<usize>, k: int)
    ensures
        prefix_weight(items, order, k) >= 0,
    decreases k,
{
    if k > 0 {
        lemma_prefix_weight_nonneg(items, order, k - 1);
    }
}

/// A selection inside another sums to no more, for nonnegative terms.
proof fn lemma_subset_sum(xs: Seq<int>, d: Seq<bool>, e: Seq<bool>, k: int)
    requires
        d.len() == xs.len(),
        e.len() == xs.len(),
        0 <= k <= xs.len(),
        forall|i: int| 0 <= i < xs.len() ==> xs[i] >= 0,
        forall|i: int| 0 <= i < xs.len() && #[trigger] d[i] ==> e[i],
    ensures
        crate::problem::sum_upto(xs, d, k) <= crate::problem::sum_upto(xs, e, k),
    decreases k,
{
    if k > 0 {
        lemma_subset_sum(xs, d, e, k - 1);
    }
}

/// A selection inside the union of two others sums to no more than both
/// together, for nonnegative terms.
proof fn lemma_union_sum(xs: Seq<int>, c: Seq<bool>, a: Seq<bool>, b: Seq<bool>, k: int)
    requires
        c.len() == xs.len(),
        a.len() == xs.len(),
        b.len() == xs.len(),
        0 <= k <= xs.len(),
        forall|i: int| 0 <= i < xs.len() ==> xs[i] >= 0,
        forall|i: int| 0 <= i < xs.len() && #[trigger] c[i] ==> a[i] || b[i],
    ensures
        crate::problem::sum_upto(xs, c, k) <= crate::problem::sum_upto(xs, a, k)
            + crate::problem::sum_upto(xs, b, k),
    decreases k,
{
    if k > 0 {
        lemma_union_sum(xs, c, a, b, k - 1);
        crate::problem::lemma_sum_upto_nonneg(xs, a, k - 1);
        crate::problem::lemma_sum_upto_nonneg(xs, b, k - 1);
    }
}

} // verus!
