use aoc2023::cubes::{input_generator, solve_part1, solve_part2, Game, Round};

fn round(reds: u32, greens: u32, blues: u32) -> Round {
    Round {
        reds,
        greens,
        blues,
    }
}

fn example() -> Vec<Game> {
    vec![
        Game {
            id: 1,
            rounds: vec![round(4, 0, 3), round(1, 2, 6), round(0, 2, 0)],
        },
        Game {
            id: 2,
            rounds: vec![round(0, 2, 1), round(1, 3, 4), round(0, 1, 1)],
        },
        Game {
            id: 3,
            rounds: vec![round(20, 8, 6), round(4, 13, 5), round(1, 5, 0)],
        },
        Game {
            id: 4,
            rounds: vec![round(3, 1, 6), round(6, 3, 0), round(14, 3, 15)],
        },
        Game {
            id: 5,
            rounds: vec![round(6, 3, 1), round(1, 2, 2)],
        },
    ]
}

const EXAMPLE: &str = "Game 1: 3 blue, 4 red; 1 red, 2 green, 6 blue; 2 green
Game 2: 1 blue, 2 green; 3 green, 4 blue, 1 red; 1 green, 1 blue
Game 3: 8 green, 6 blue, 20 red; 5 blue, 4 red, 13 green; 5 green, 1 red
Game 4: 1 green, 3 red, 6 blue; 3 green, 6 red; 3 green, 15 blue, 14 red
Game 5: 6 red, 1 blue, 3 green; 2 blue, 1 red, 2 green";

#[test]
fn convert_input() {
    const INPUT: &str = "Game 1: 3 blue, 4 red; 1 red, 2 green, 6 blue; 2 green\nGame 2: 1 blue, 2 green; 3 green, 4 blue, 1 red; 1 green, 1 blue";

    let res = input_generator(INPUT).unwrap();
    let correct_res = vec![
        Game {
            id: 1,
            rounds: vec![
                Round {
                    blues: 3,
                    reds: 4,
                    greens: 0,
                },
                Round {
                    reds: 1,
                    blues: 6,
                    greens: 2,
                },
                Round {
                    greens: 2,
                    ..Default::default()
                },
            ],
        },
        Game {
            id: 2,
            rounds: vec![
                Round {
                    blues: 1,
                    reds: 0,
                    greens: 2,
                },
                Round {
                    reds: 1,
                    blues: 4,
                    greens: 3,
                },
                Round {
                    greens: 1,
                    blues: 1,
                    ..Default::default()
                },
            ],
        },
    ];
    assert_eq!(res, correct_res);
}

#[test]
fn day2_example_part1() {
    assert_eq!(Some(8), solve_part1(&input_generator(EXAMPLE).unwrap()));
    assert_eq!(solve_part1(&example()), Some(8));
}

#[test]
fn day2_example_part2() {
    assert_eq!(Some(2286), solve_part2(&input_generator(EXAMPLE).unwrap()));
    assert_eq!(solve_part2(&example()), Some(2286));
}

#[test]
fn malformed_games() {
    assert!(input_generator("Game 1 3 blue").is_none());
    assert!(input_generator("Game x: 3 blue").is_none());
    assert!(input_generator("Game 1: 3 purple").is_none());
    assert!(input_generator("Game 1: 3blue").is_none());
    assert!(input_generator("Game 1: 3 blue: 4 red").is_none());
    assert!(input_generator("Match 1: 3 blue").is_none());
    let later_wins = input_generator("Game 7: 3 blue, 5 blue").unwrap();
    assert_eq!(later_wins[0].rounds[0].blues, 5);
}

#[test]
fn round_within_bag() {
    assert!(round(12, 13, 14).possible((12, 13, 14)));
    assert!(!round(13, 0, 0).possible((12, 13, 14)));
    assert!(!round(0, 0, 15).possible((12, 13, 14)));
}

#[test]
fn least_power_of_a_game() {
    let g = Game {
        id: 9,
        rounds: vec![round(4, 0, 3), round(1, 2, 6), round(0, 2, 0)],
    };
    assert_eq!(g.least_power(), 48);
    assert!(g.is_possible((12, 13, 14)));
    let empty = Game { id: 3, rounds: vec![] };
    assert_eq!(empty.least_power(), 0);
    assert_eq!(solve_part1(&[empty]), Some(3));
}
