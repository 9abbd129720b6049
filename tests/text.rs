use knapsack::problem::{Item, Problem, SolveError};

#[test]
fn reads_a_problem_file() {
    let text = b"3\n0 10 5\n1 6 4\n2 4 3\n7\n";
    let p = Problem::read(text).unwrap();
    assert_eq!(p.items.len(), 3);
    assert_eq!(p.capacity, 7);
    assert_eq!((p.items[1].id, p.items[1].value, p.items[1].weight), (1, 6, 4));
    assert_eq!((p.items[2].id, p.items[2].value, p.items[2].weight), (2, 4, 3));
}

#[test]
fn tolerates_whitespace_within_lines() {
    let text = b"  2\r\n 7\t8 9\r\n10 11 12 \x0c\n 13  \n\n  \n";
    let p = Problem::read(text).unwrap();
    assert_eq!(p.items.len(), 2);
    assert_eq!(p.items[0].id, 7);
    assert_eq!(p.items[1].weight, 12);
    assert_eq!(p.capacity, 13);
}

#[test]
fn refuses_texts_outside_the_line_layout() {
    // No capacity line.
    assert_eq!(Problem::read(b"0 0").err(), Some(SolveError::InvalidInput));
    // An item line with two numbers.
    assert_eq!(Problem::read(b"1\n0 5\n10\n3\n").err(), Some(SolveError::InvalidInput));
    // Everything on one line.
    assert_eq!(Problem::read(b"1 0 5 10 3").err(), Some(SolveError::InvalidInput));
    // A blank line between the items.
    assert_eq!(Problem::read(b"2\n0 1 1\n\n1 1 1\n5\n").err(), Some(SolveError::InvalidInput));
    // Capacity on the last item's line.
    assert_eq!(Problem::read(b"1\n0 1 1 5\n").err(), Some(SolveError::InvalidInput));
}

#[test]
fn refuses_non_numbers() {
    assert_eq!(Problem::read(b"1\n0 x 3\n5\n").err(), Some(SolveError::InvalidInput));
    assert_eq!(Problem::read(b"1\n0 -1 3\n5\n").err(), Some(SolveError::InvalidInput));
}

#[test]
fn refuses_wrong_counts() {
    assert_eq!(Problem::read(b"2\n0 1 3\n5\n").err(), Some(SolveError::InvalidInput));
    assert_eq!(Problem::read(b"1\n0 1 3\n5\n6\n").err(), Some(SolveError::InvalidInput));
    assert_eq!(Problem::read(b"").err(), Some(SolveError::InvalidInput));
}

#[test]
fn refuses_numbers_too_large() {
    assert_eq!(
        Problem::read(b"1\n0 1 99999999999999999999999\n5\n").err(),
        Some(SolveError::InvalidInput)
    );
    let max = usize::MAX.to_string();
    let text = format!("2\n0 1 {}\n1 1 1\n5\n", max);
    assert_eq!(Problem::read(text.as_bytes()).err(), Some(SolveError::InvalidInput));
}

#[test]
fn reads_an_empty_problem() {
    let p = Problem::read(b"0\n42\n").unwrap();
    assert!(p.items.is_empty());
    assert_eq!(p.capacity, 42);
}

#[test]
fn writes_the_text_format() {
    let p = Problem {
        items: vec![Item::new(0, 10, 5), Item::new(1, 6, 4), Item::new(12, 0, 305)],
        capacity: 7,
    };
    assert_eq!(
        String::from_utf8(p.to_text()).unwrap(),
        "3\n0 10 5\n1 6 4\n12 0 305\n7\n"
    );
}

#[test]
fn written_text_reads_back() {
    let p = Problem {
        items: (0..25).map(|i| Item::new(i * 7, i * 1000 + 3, i + 1)).collect(),
        capacity: usize::MAX / 4,
    };
    let q = Problem::read(&p.to_text()).unwrap();
    assert_eq!(q.capacity, p.capacity);
    assert_eq!(q.items.len(), p.items.len());
    for (a, b) in p.items.iter().zip(q.items.iter()) {
        assert_eq!((a.id, a.value, a.weight), (b.id, b.value, b.weight));
    }
}
