use aoc2023::races::{product_of_ways, races_from_str, solve_part1, solve_part2, Race};

const EXAMPLE: &str = "Time:      7  15   30
Distance:  9  40  200
";

#[test]
fn day6_example_part1() {
    assert_eq!(solve_part1(EXAMPLE), Some(288));
}

#[test]
fn day6_example_part2() {
    assert_eq!(solve_part2(EXAMPLE), Some(71503));
}

#[test]
fn reading_races() {
    let races = races_from_str(EXAMPLE).unwrap();
    assert_eq!(
        races,
        vec![
            Race {
                time: 7,
                distance: 9
            },
            Race {
                time: 15,
                distance: 40
            },
            Race {
                time: 30,
                distance: 200
            },
        ]
    );
    assert_eq!(races[0].ways_to_win(), 4);
    assert_eq!(product_of_ways(&races), Some(288));
    assert!(races_from_str("Time: 7").is_none());
    assert!(races_from_str("Time: 7 8\nDistance: 9").is_none());
    assert!(races_from_str("Time: 99999999999999999999\nDistance: 9").is_none());
    assert_eq!(races_from_str("Time:\nDistance:"), Some(vec![]));
}

#[test]
fn no_time_no_way() {
    let race = Race {
        time: 0,
        distance: 0,
    };
    assert_eq!(race.ways_to_win(), 0);
    assert_eq!(product_of_ways(&[]), Some(1));
    let long = Race {
        time: 71530,
        distance: 940200,
    };
    assert_eq!(long.ways_to_win(), 71503);
}
