use knapsack::generate::{strongly_correlated_items, uncorrelated_items, weight_sum};
use knapsack::problem::{Item, SolveError};

#[test]
fn uncorrelated_items_lie_in_their_ranges() {
    let items = uncorrelated_items(200, 5, 9, 3, 7).unwrap();
    assert_eq!(items.len(), 200);
    for (i, item) in items.iter().enumerate() {
        assert_eq!(item.id, i);
        assert!(5 <= item.value && item.value < 9);
        assert!(3 <= item.weight && item.weight < 7);
    }
    // 200 draws from four values each: all on the lower end is practically impossible.
    assert!(items.iter().any(|item| item.value != 5));
    assert!(items.iter().any(|item| item.weight != 3));
}

#[test]
fn single_value_ranges_fix_the_draw() {
    let items = uncorrelated_items(10, 41, 42, 17, 18).unwrap();
    for item in &items {
        assert_eq!(item.value, 41);
        assert_eq!(item.weight, 17);
    }
}

#[test]
fn strongly_correlated_values_follow_weights() {
    let items = strongly_correlated_items(100, 1, 100, 10).unwrap();
    for (i, item) in items.iter().enumerate() {
        assert_eq!(item.id, i);
        assert!(1 <= item.weight && item.weight < 100);
        assert_eq!(item.value, item.weight + 10);
    }
}

#[test]
fn bad_ranges_are_refused() {
    assert_eq!(uncorrelated_items(3, 5, 5, 1, 2).err(), Some(SolveError::InvalidInput));
    assert_eq!(uncorrelated_items(3, 1, 5, 0, 2).err(), Some(SolveError::InvalidInput));
    assert_eq!(strongly_correlated_items(3, 4, 4, 1).err(), Some(SolveError::InvalidInput));
    assert_eq!(
        strongly_correlated_items(3, 1, usize::MAX, 5).err(),
        Some(SolveError::InvalidInput)
    );
}

#[test]
fn weight_sum_adds_weights() {
    let items = vec![Item::new(0, 1, 3), Item::new(1, 1, 4), Item::new(2, 9, 5)];
    assert_eq!(weight_sum(&items), Some(12));
    let heavy = vec![Item::new(0, 1, usize::MAX), Item::new(1, 1, 1)];
    assert_eq!(weight_sum(&heavy), None);
}
