use aoc2023::scratchcards::{solve_part1, solve_part2, Card};

fn card(winning: &[u32], actual: &[u32]) -> Card {
    Card {
        winning: winning.to_vec(),
        actual: actual.to_vec(),
    }
}

fn example() -> Vec<Card> {
    vec![
        card(&[41, 48, 83, 86, 17], &[83, 86, 6, 31, 17, 9, 48, 53]),
        card(&[13, 32, 20, 16, 61], &[61, 30, 68, 82, 17, 32, 24, 19]),
        card(&[1, 21, 53, 59, 44], &[69, 82, 63, 72, 16, 21, 14, 1]),
        card(&[41, 92, 73, 84, 69], &[59, 84, 76, 51, 58, 5, 54, 83]),
        card(&[87, 83, 26, 28, 32], &[88, 30, 70, 12, 93, 22, 82, 36]),
        card(&[31, 18, 13, 56, 72], &[74, 77, 10, 23, 35, 67, 36, 11]),
    ]
}

#[test]
fn day4_example_part1() {
    assert_eq!(solve_part1(&example()), Some(13));
}

#[test]
fn day4_example_part2() {
    assert_eq!(solve_part2(&example()), Some(30));
}

#[test]
fn matches_and_points() {
    let c = card(&[1, 2, 3], &[3, 3, 4, 1]);
    assert_eq!(c.count_matches(), 3);
    assert_eq!(solve_part1(&[c]), Some(4));
    let many: Vec<u32> = (0..70).collect();
    assert_eq!(solve_part1(&[card(&many, &many)]), None);
    assert_eq!(solve_part1(&[]), Some(0));
    assert_eq!(solve_part2(&[]), Some(0));
}

#[test]
fn copies_stop_at_the_last_card() {
    let cards = vec![card(&[1], &[1, 1, 1]), card(&[], &[])];
    assert_eq!(solve_part2(&cards), Some(3));
}
