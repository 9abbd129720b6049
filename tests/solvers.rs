use knapsack::problem::{Item, Problem, Solution, SolveError};
use knapsack::{dynamic, greedy, minknap};

fn problem(items: &[(usize, usize, usize)], capacity: usize) -> Problem {
    Problem {
        items: items
            .iter()
            .map(|&(id, value, weight)| Item::new(id, value, weight))
            .collect(),
        capacity,
    }
}

fn chosen_ids(problem: &Problem, solution: &Solution) -> Vec<usize> {
    problem
        .items
        .iter()
        .zip(solution.decision.iter())
        .filter(|(_, d)| **d)
        .map(|(item, _)| item.id)
        .collect()
}

fn sums(problem: &Problem, decision: &[bool]) -> (usize, usize) {
    let mut value = 0;
    let mut weight = 0;
    for (item, d) in problem.items.iter().zip(decision.iter()) {
        if *d {
            value += item.value;
            weight += item.weight;
        }
    }
    (value, weight)
}

// Deterministic pseudo-random instance with values and weights in 1..=100.
fn random_problem(seed: u64, item_count: usize, capacity_ratio_percent: usize) -> Problem {
    let mut state = seed;
    let mut next = move || {
        state = state
            .wrapping_mul(6364136223846793005)
            .wrapping_add(1442695040888963407);
        ((state >> 33) % 100) as usize + 1
    };
    let mut items = Vec::new();
    let mut weight_sum = 0;
    for id in 0..item_count {
        let value = next();
        let weight = next();
        weight_sum += weight;
        items.push(Item::new(id, value, weight));
    }
    Problem {
        items,
        capacity: weight_sum * capacity_ratio_percent / 100,
    }
}

// MinKnap stops as soon as its best state fills the knapsack exactly; when
// that does not happen it runs to the end and must reach the optimum.
fn check_against_dynamic(problem: &Problem) -> Solution {
    let exact = minknap::solve(problem).unwrap();
    let reference = dynamic::solve(problem).unwrap();
    assert!(exact.validate(problem));
    assert!(reference.validate(problem));
    assert!(exact.value <= reference.value);
    if exact.weight < problem.capacity {
        assert_eq!(exact.value, reference.value);
    }
    exact
}

// Both {0} and {1, 2} are worth 10; the break solution {0} is found first
// and no later state beats it strictly.
#[test]
fn s1_small_instance() {
    let p = problem(&[(0, 10, 5), (1, 6, 4), (2, 4, 3)], 7);
    let s = minknap::solve(&p).unwrap();
    assert_eq!(s.value, 10);
    assert!(s.weight <= 7);
    assert!(s.validate(&p));
    let d = dynamic::solve(&p).unwrap();
    assert_eq!(d.value, 10);
    assert!(d.validate(&p));
}

#[test]
fn s2_all_items_fit() {
    let p = problem(&[(0, 3, 1), (1, 5, 2)], 100);
    let s = minknap::solve(&p).unwrap();
    assert_eq!(chosen_ids(&p, &s), vec![0, 1]);
    assert_eq!(s.value, 8);
    assert_eq!(s.weight, 3);
}

#[test]
fn s3_no_item_fits() {
    let p = problem(&[(0, 5, 10)], 3);
    let s = minknap::solve(&p).unwrap();
    assert!(chosen_ids(&p, &s).is_empty());
    assert_eq!(s.value, 0);
    assert_eq!(s.weight, 0);
    assert_eq!(s.decision, vec![false]);
}

#[test]
fn s4_strongly_correlated() {
    let items: Vec<(usize, usize, usize)> = (1..=20).map(|i| (i, i + 10, i)).collect();
    let p = problem(&items, 50);
    let s = check_against_dynamic(&p);
    assert!(s.weight <= 50);
}

#[test]
fn s5_equal_efficiencies() {
    let p = problem(&[(0, 2, 1), (1, 4, 2), (2, 6, 3)], 5);
    let s = minknap::solve(&p).unwrap();
    assert_eq!(s.value, 10);
    assert_eq!(s.weight, 5);
    let again = minknap::solve(&p).unwrap();
    assert_eq!(again.value, 10);
}

#[test]
fn s6_commit_boundary() {
    let p = random_problem(131, 130, 50);
    let s = check_against_dynamic(&p);
    let d = dynamic::solve(&p).unwrap();
    assert_eq!(s.value, d.value);
    assert_eq!(sums(&p, &s.decision).0, sums(&p, &d.decision).0);
}

// The search stops once a state fills the knapsack exactly: here {3}
// (value 9, weight 7) is found before {0, 1} (value 11, weight 7).
#[test]
fn search_stops_at_an_exact_fill() {
    let p = problem(&[(0, 7, 3), (1, 4, 4), (2, 5, 8), (3, 9, 7)], 7);
    let s = minknap::solve(&p).unwrap();
    assert_eq!(s.weight, 7);
    assert_eq!(s.value, 9);
    assert_eq!(s.decision, vec![false, false, false, true]);
    assert_eq!(dynamic::solve(&p).unwrap().value, 11);
}

#[test]
fn minknap_matches_dynamic_on_many_instances() {
    for seed in 0..40 {
        for &(count, ratio) in &[(10, 30), (25, 50), (60, 70), (90, 20)] {
            let p = random_problem(seed, count, ratio);
            check_against_dynamic(&p);
        }
    }
}

// Greedy skips item 2 and still takes item 1; the search stops at {2}, which
// fills the knapsack exactly.
#[test]
fn exact_fill_can_stop_below_greedy() {
    let p = problem(&[(0, 5, 1), (1, 3, 4), (2, 6, 7)], 7);
    let s = minknap::solve(&p).unwrap();
    assert_eq!(s.value, 6);
    assert_eq!(s.weight, 7);
    assert_eq!(greedy::solve(&p).value, 8);
}

#[test]
fn minknap_is_at_least_greedy() {
    for seed in 100..130 {
        let p = random_problem(seed, 40, 40);
        let exact = minknap::solve(&p).unwrap();
        let heuristic = greedy::solve(&p);
        if exact.weight < p.capacity {
            assert!(exact.value >= heuristic.value);
        }
    }
}

#[test]
fn minknap_is_at_most_linear_bound() {
    // Efficiency order: item 0 (3.0), item 1 (2.0), item 2 (1.5).
    // Break solution {0} weighs 4; the break item 1 adds ceil(6 * 2) = 12.
    let p = problem(&[(0, 12, 4), (1, 10, 5), (2, 9, 6)], 10);
    let s = minknap::solve(&p).unwrap();
    assert!(s.value <= 12 + 12);
    assert_eq!(s.value, 22);
}

#[test]
fn solution_sums_match_decision() {
    for seed in 200..220 {
        let p = random_problem(seed, 50, 45);
        let s = minknap::solve(&p).unwrap();
        let (value, weight) = sums(&p, &s.decision);
        assert_eq!(value, s.value);
        assert_eq!(weight, s.weight);
        assert!(s.weight <= p.capacity);
        assert_eq!(s.decision.len(), p.items.len());
    }
}

#[test]
fn solving_twice_gives_the_same_decision() {
    let p = random_problem(7, 80, 35);
    let first = minknap::solve(&p).unwrap();
    let second = minknap::solve(&p).unwrap();
    assert_eq!(first.decision, second.decision);
    assert_eq!(first.value, second.value);
}

#[test]
fn zero_weight_item_is_refused() {
    let p = problem(&[(0, 3, 1), (1, 5, 0)], 10);
    assert!(matches!(minknap::solve(&p), Err(SolveError::InvalidInput)));
}

#[test]
fn exact_fill_stops_early_with_optimum() {
    let p = problem(&[(0, 10, 4), (1, 9, 4), (2, 7, 3), (3, 1, 1)], 8);
    let s = check_against_dynamic(&p);
    assert_eq!(s.value, 19);
    assert_eq!(s.weight, 8);
}

#[test]
fn items_heavier_than_capacity_are_never_chosen() {
    let p = problem(&[(0, 100, 11), (1, 3, 2), (2, 4, 3)], 10);
    let s = minknap::solve(&p).unwrap();
    assert!(!s.decision[0]);
    assert_eq!(s.value, 7);
}

#[test]
fn empty_problem() {
    let p = problem(&[], 10);
    let s = minknap::solve(&p).unwrap();
    assert!(s.decision.is_empty());
    assert_eq!(s.value, 0);
    let d = dynamic::solve(&p).unwrap();
    assert_eq!(d.value, 0);
}

#[test]
fn dynamic_refuses_large_tables() {
    let p = problem(&[(0, 1, 1)], 499_999);
    assert!(dynamic::solve(&p).is_ok());
    let p = problem(&[(0, 1, 1)], 500_000);
    assert!(matches!(dynamic::solve(&p), Err(SolveError::ProblemTooLarge)));
}

#[test]
fn dynamic_finds_optimum() {
    let p = problem(&[(0, 60, 10), (1, 100, 20), (2, 120, 30)], 50);
    let d = dynamic::solve(&p).unwrap();
    assert_eq!(d.value, 220);
    assert_eq!(d.weight, 50);
    assert_eq!(d.decision, vec![false, true, true]);
}

#[test]
fn greedy_takes_items_strictly_under_capacity() {
    // Efficiency order: 0 (2.0), 1 (1.5), 2 (1.0). Item 1 would fill the
    // knapsack exactly, so it is skipped; item 2 still fits under.
    let p = problem(&[(0, 4, 2), (1, 6, 4), (2, 1, 1)], 6);
    let g = greedy::solve(&p);
    assert_eq!(g.decision, vec![true, false, true]);
    assert_eq!(g.value, 5);
    assert_eq!(g.weight, 3);
}

#[test]
fn validate_checks_sums_and_capacity() {
    let p = problem(&[(0, 3, 2), (1, 4, 3)], 4);
    let good = Solution { decision: vec![false, true], value: 4, weight: 3 };
    assert!(good.validate(&p));
    let wrong_value = Solution { decision: vec![false, true], value: 5, weight: 3 };
    assert!(!wrong_value.validate(&p));
    let too_heavy = Solution { decision: vec![true, true], value: 7, weight: 5 };
    assert!(!too_heavy.validate(&p));
    let wrong_len = Solution { decision: vec![true], value: 3, weight: 2 };
    assert!(!wrong_len.validate(&p));
}
