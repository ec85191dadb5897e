use knapsack::{parse_input, solve, twin_items, values_fit, InputError};

#[test]
fn parse_reads_capacity_count_and_numbers() {
    let read = parse_input(b"200 10\n92 86 16 20 48 85 49 73 94 10\n");
    assert_eq!(read, Ok((200, 10, vec![92, 86, 16, 20, 48, 85, 49, 73, 94, 10])));
}

#[test]
fn parse_takes_any_ascii_space_between_words() {
    let read = parse_input(b" \t7\x0c3 \r\n\t1  2\t\t3 \r\n");
    assert_eq!(read, Ok((7, 3, vec![1, 2, 3])));
}

#[test]
fn parse_does_not_hold_the_count_against_the_numbers() {
    assert_eq!(parse_input(b"5 9\n1 2\n"), Ok((5, 9, vec![1, 2])));
    assert_eq!(parse_input(b"5 0\n1 2 3"), Ok((5, 0, vec![1, 2, 3])));
}

#[test]
fn parse_reads_no_further_than_it_must() {
    // More words on the first line and more lines after the second.
    assert_eq!(parse_input(b"5 2 x y\n1 2\nrest -1\n"), Ok((5, 2, vec![1, 2])));
}

#[test]
fn parse_accepts_an_empty_second_line() {
    assert_eq!(parse_input(b"5 0\n\n"), Ok((5, 0, vec![])));
    assert_eq!(parse_input(b"5 0\n  \n"), Ok((5, 0, vec![])));
    assert_eq!(parse_input(b"5 0\n "), Ok((5, 0, vec![])));
}

#[test]
fn parse_accepts_a_plus_sign_and_leading_zeros() {
    assert_eq!(parse_input(b"+5 007\n+0 00012\n"), Ok((5, 7, vec![0, 12])));
}

#[test]
fn parse_reads_the_greatest_number() {
    let text = format!("{} 1\n{}\n", usize::MAX, usize::MAX);
    assert_eq!(parse_input(text.as_bytes()), Ok((usize::MAX, 1, vec![usize::MAX])));
}

#[test]
fn parse_misses_a_line() {
    assert_eq!(parse_input(b""), Err(InputError::MissingLine));
    assert_eq!(parse_input(b"5 2"), Err(InputError::MissingLine));
    assert_eq!(parse_input(b"5 2\n"), Err(InputError::MissingLine));
}

#[test]
fn parse_misses_a_number() {
    assert_eq!(parse_input(b"\n1 2\n"), Err(InputError::MissingNumber));
    assert_eq!(parse_input(b"   \n1 2\n"), Err(InputError::MissingNumber));
    assert_eq!(parse_input(b"5\n1 2\n"), Err(InputError::MissingNumber));
    assert_eq!(parse_input(b"5  \n1 2\n"), Err(InputError::MissingNumber));
}

#[test]
fn parse_refuses_what_is_no_number() {
    assert_eq!(parse_input(b"x 2\n1 2\n"), Err(InputError::BadNumber));
    assert_eq!(parse_input(b"5 2x\n1 2\n"), Err(InputError::BadNumber));
    assert_eq!(parse_input(b"5 2\n1 two 3\n"), Err(InputError::BadNumber));
    assert_eq!(parse_input(b"5 2\n1 -2\n"), Err(InputError::BadNumber));
    assert_eq!(parse_input(b"5 2\n1 2.5\n"), Err(InputError::BadNumber));
    assert_eq!(parse_input(b"5 2\n+\n"), Err(InputError::BadNumber));
    assert_eq!(parse_input(b"5 2\n1 ++2\n"), Err(InputError::BadNumber));
    assert_eq!(parse_input(b"5 2\n1 \x0b 2\n"), Err(InputError::BadNumber));
}

#[test]
fn parse_refuses_a_number_too_large() {
    let text = format!("5 2\n1 {}0\n", usize::MAX);
    assert_eq!(parse_input(text.as_bytes()), Err(InputError::BadNumber));
    assert_eq!(
        parse_input(b"5 2\n99999999999999999999999999999999999999999\n"),
        Err(InputError::BadNumber)
    );
    assert_eq!(parse_input(b"18446744073709551616 2\n1\n").is_err(), usize::MAX as u128 == u64::MAX as u128);
}

#[test]
fn parse_reports_the_first_fault() {
    // A bad capacity comes before a missing count and a missing line.
    assert_eq!(parse_input(b"x"), Err(InputError::BadNumber));
    // A missing count comes before a missing line.
    assert_eq!(parse_input(b"5"), Err(InputError::MissingNumber));
    // A missing line comes before anything on it.
    assert_eq!(parse_input(b"5 x"), Err(InputError::BadNumber));
    assert_eq!(parse_input(b"5 5"), Err(InputError::MissingLine));
}

#[test]
fn parse_agrees_with_the_standard_library() {
    let texts: Vec<&str> = vec![
        "200 10\n92 86 16 20 48 85 49 73 94 10\n",
        "1 1\r\n5\r\n",
        "3 4 5\n6\t7\n8\n",
        "  12   2  \n  0  00 +4 \n",
        "9 9\n\n",
    ];
    for text in texts {
        let lines: Vec<&str> = text.lines().collect();
        let first: Vec<&str> = lines[0].split_ascii_whitespace().collect();
        let capacity = first[0].parse::<usize>().unwrap();
        let count = first[1].parse::<usize>().unwrap();
        let numbers: Vec<usize> =
            lines[1].split_ascii_whitespace().map(|w| w.parse::<usize>().unwrap()).collect();
        assert_eq!(parse_input(text.as_bytes()), Ok((capacity, count, numbers)));
    }
}

#[test]
fn twin_items_are_worth_what_they_weigh() {
    assert_eq!(twin_items(&vec![3, 0, 7]), vec![(3, 3), (0, 0), (7, 7)]);
    assert_eq!(twin_items(&vec![]), vec![]);
}

#[test]
fn values_fit_tells_when_the_worth_can_be_counted() {
    let few: Vec<(usize, usize)> = vec![(1, 1), (2, 2), (3, 3)];
    assert!(values_fit(&few));
    let none: Vec<(usize, usize)> = vec![];
    assert!(values_fit(&none));
    let edge: Vec<(usize, usize)> = vec![(usize::MAX - 1, 1), (1, 1), (0, 5)];
    assert!(values_fit(&edge));
    let over: Vec<(usize, usize)> = vec![(usize::MAX - 1, 1), (1, 1), (1, 5)];
    assert!(!values_fit(&over));
    let twice: Vec<(usize, usize)> = vec![(usize::MAX, 1), (usize::MAX, 1)];
    assert!(!values_fit(&twice));
}

#[test]
fn text_to_solution() {
    let (capacity, _, numbers) =
        parse_input(b"200 10\n92 86 16 20 48 85 49 73 94 10\n").unwrap();
    let items = twin_items(&numbers);
    assert!(values_fit(&items));
    let (v, w, taken) = solve(&items, capacity);
    assert_eq!(v, 200);
    assert_eq!(w, 200);
    assert_eq!(
        taken,
        vec![false, true, false, true, false, false, false, false, true, false]
    );
}

#[test]
fn solve_with_values_at_the_edge_of_the_machine() {
    let items: Vec<(usize, usize)> = vec![(usize::MAX - 5, usize::MAX), (5, 3), (0, 0)];
    assert!(values_fit(&items));
    let (v, w, taken) = solve(&items, usize::MAX);
    assert_eq!(v, usize::MAX - 5);
    assert_eq!(w, usize::MAX);
    assert_eq!(taken, vec![true, false, false]);
}
