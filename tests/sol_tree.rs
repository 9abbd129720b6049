use knapsack::sol_tree::{backtrack_crumb, BacktrackState, SolCrumb, SolTree};

// Quick check of sol crumb backtracking
// only partially full
// Flip false decisions
#[test]
fn sol_crumb_1() {
    let mut sc = SolCrumb::new(0);
    sc.add_decision(true);
    assert_eq!(sc.recent, 0b1);

    sc.add_decision(true);
    assert_eq!(sc.recent, 0b11);

    sc.add_decision(false);
    assert_eq!(sc.recent, 0b110);

    sc.add_decision(true);
    assert_eq!(sc.recent, 0b1101);

    let item_order: Vec<usize> = (0..4).collect();
    let mut decision_vector = vec![false; 4];
    let mut bt_state = BacktrackState::new(&item_order);

    backtrack_crumb(sc.recent, 4, &item_order, &mut bt_state, &mut decision_vector);
    assert_eq!(decision_vector, vec![true, true, false, true]);
}

// Check of full sol_crumb
// flip true decisions
#[test]
fn sol_crumb_2() {
    let mut sc = SolCrumb::new(0);
    // start with all trues, flip in decision
    let mut correct_decision = Vec::with_capacity(64);
    for _ in 0..32 {
        sc.add_decision(false);
        correct_decision.push(true);

        sc.add_decision(true);
        correct_decision.push(false);
    }
    assert_eq!(correct_decision.len(), 64);

    let item_order: Vec<usize> = (0..64).collect();
    let mut decision_vector = vec![true; 64];
    let mut bt_state = BacktrackState::new(&item_order);
    backtrack_crumb(sc.recent, 64, &item_order, &mut bt_state, &mut decision_vector);
    assert_eq!(decision_vector, correct_decision);
}

// Check of sol tree backtracking
#[test]
fn sol_tree_1() {
    let item_count = 342;
    let mut correct_decision = Vec::with_capacity(item_count);
    let mut root_crumb = SolCrumb::new(0);
    let mut level = 0;
    let mut sol_tree = SolTree::new();
    for _ in 0..(item_count / 2) {
        root_crumb.add_decision(false);
        correct_decision.push(false);

        root_crumb.add_decision(true);
        correct_decision.push(true);

        level += 2;
        if level >= 64 {
            level = 0;
            sol_tree.fresh_crumb(&mut root_crumb);
        }
    }

    assert_eq!(level, item_count % 64);
    assert_eq!(sol_tree.len(), (item_count / 64) + 1);

    let mut decision_vector = vec![false; item_count];
    let item_order: Vec<usize> = (0..item_count).collect();
    sol_tree.backtrack(root_crumb, level, &item_order, &mut decision_vector);
    assert_eq!(decision_vector, correct_decision);
}

// Check of sol tree backtracking
// With a minknap like order
#[test]
fn sol_tree_2() {
    let item_count = 759;
    let mut correct_decision = Vec::with_capacity(item_count);
    let mut item_order = Vec::with_capacity(item_count);
    let mut root_crumb = SolCrumb::new(0);
    let mut sol_tree = SolTree::new();

    let b = 312;
    let mut s = b;
    let mut t = b - 1;
    let mut level = 0;
    while s > 0 || t < item_count - 1 {
        if s > 0 {
            s -= 1;
            item_order.push(s);
            correct_decision.push(true);
            root_crumb.add_decision(true);
            level += 1;
            if level >= 64 {
                level = 0;
                sol_tree.fresh_crumb(&mut root_crumb);
            }
        }

        if t < item_count - 1 {
            t += 1;
            item_order.push(t);
            correct_decision.push(false);
            root_crumb.add_decision(false);
            level += 1;
            if level >= 64 {
                level = 0;
                sol_tree.fresh_crumb(&mut root_crumb);
            }
        }
    }

    assert_eq!(level, item_count % 64);
    assert_eq!(sol_tree.len(), (item_count / 64) + 1);

    let mut decision_vector = vec![false; item_count];
    let item_order: Vec<usize> = (0..item_count).collect();
    sol_tree.backtrack(root_crumb, level, &item_order, &mut decision_vector);
    assert_eq!(decision_vector, correct_decision);
}

// Decisions fed through crumbs and commits come back, mapped through a
// permuted item order, when replayed onto an all-false vector.
#[test]
fn crumb_round_trip_through_permuted_order() {
    let n = 150;
    let decisions: Vec<bool> = (0..n).map(|i| (i * 7 + 3) % 5 < 2).collect();
    let item_order: Vec<usize> = (0..n).map(|i| (i * 37) % n).collect();
    let mut crumb = SolCrumb::new(0);
    let mut tree = SolTree::new();
    let mut level = 0;
    for d in &decisions {
        crumb.add_decision(*d);
        level += 1;
        if level == 64 {
            level = 0;
            tree.fresh_crumb(&mut crumb);
        }
    }
    assert_eq!(tree.len(), 3);
    let mut decision_vector = vec![false; n];
    tree.backtrack(crumb, level, &item_order, &mut decision_vector);
    for k in 0..n {
        assert_eq!(decision_vector[item_order[k]], decisions[k]);
    }
}

#[test]
fn fresh_crumb_links_to_the_copy() {
    let mut tree = SolTree::new();
    assert_eq!(tree.len(), 1);
    let mut crumb = SolCrumb::new(0);
    crumb.add_decision(true);
    tree.fresh_crumb(&mut crumb);
    assert_eq!(crumb.recent, 0);
    assert_eq!(crumb.previous, 1);
    tree.fresh_crumb(&mut crumb);
    assert_eq!(crumb.previous, 2);
    assert_eq!(tree.len(), 3);
}

#[test]
fn backtrack_of_empty_history_changes_nothing() {
    let tree = SolTree::new();
    let item_order: Vec<usize> = Vec::new();
    let mut decision_vector = vec![true, false, true];
    tree.backtrack(SolCrumb::new(0), 0, &item_order, &mut decision_vector);
    assert_eq!(decision_vector, vec![true, false, true]);
}
