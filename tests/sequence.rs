use aoc2023::sequence::{input_generator, solve_part1, solve_part2, Sequence};

const EXAMPLE: &str = "0 3 6 9 12 15
1 3 6 10 15 21
10 13 16 21 30 45";

#[test]
fn day9_example_part1() {
    assert_eq!(solve_part1(&input_generator(EXAMPLE).unwrap()), Some(114));
}

#[test]
fn day9_example_part2() {
    assert_eq!(solve_part2(&input_generator(EXAMPLE).unwrap()), Some(2));
}

#[test]
fn reading_sequences() {
    let seqs = input_generator("5 -3 0\n-9223372036854775808 9223372036854775807\n").unwrap();
    assert_eq!(seqs.len(), 2);
    assert_eq!(seqs[0].get_next(), Some(14));
    assert!(input_generator("1 2 x").is_none());
    assert!(input_generator("9223372036854775808").is_none());
    assert!(input_generator("1 -").is_none());
    assert_eq!(input_generator("").map(|v| v.len()), Some(0));
}

#[test]
fn single_sequences() {
    let s = Sequence::new(vec![10, 13, 16, 21, 30, 45]);
    assert_eq!(s.get_next(), Some(68));
    assert_eq!(s.get_previous(), Some(5));
    assert!(!s.is_zero());
    assert!(Sequence::new(vec![0, 0]).is_zero());
    assert_eq!(Sequence::new(vec![]).get_next(), Some(0));
    assert_eq!(Sequence::new(vec![7]).get_next(), Some(7));
}

#[test]
fn overflow_is_reported() {
    let s = Sequence::new(vec![i64::MIN, i64::MAX]);
    assert!(s.derive().is_none());
    assert_eq!(s.get_next(), None);
    let t = Sequence::new(vec![i64::MAX - 1, i64::MAX]);
    assert_eq!(t.get_next(), None);
    assert_eq!(t.get_previous(), Some(i64::MAX - 2));
}
