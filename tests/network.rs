use aoc2023::network::{
    solve_part1, solve_part2, vec_lcm, Direction, Goal, Instructions, NetworkError, NetworkText,
    NodeMap,
};

const PAIRS: &str = "LR

11A = (11B, XXX)
11B = (XXX, 11Z)
11Z = (11B, XXX)
22A = (22B, XXX)
22B = (22C, 22C)
22C = (22Z, 22Z)
22Z = (22B, 22B)
XXX = (XXX, XXX)";

#[test]
fn day8_example_part1() {
    let input = "RL

AAA = (BBB, CCC)
BBB = (DDD, EEE)
CCC = (ZZZ, GGG)
DDD = (DDD, DDD)
EEE = (EEE, EEE)
GGG = (GGG, GGG)
ZZZ = (ZZZ, ZZZ)
";
    assert_eq!(solve_part1(input), Ok(2));

    let input = "LLR

AAA = (BBB, BBB)
BBB = (AAA, ZZZ)
ZZZ = (ZZZ, ZZZ)";

    assert_eq!(solve_part1(input), Ok(6));
}

#[test]
fn day8_example_part2() {
    assert_eq!(solve_part2(PAIRS), Ok(6));
}

#[test]
fn lcm_of_step_counts() {
    assert_eq!(vec_lcm(&vec![2, 3]), Some(6));
    assert_eq!(vec_lcm(&vec![4, 6]), Some(12));
    assert_eq!(vec_lcm(&vec![7]), Some(7));
    assert_eq!(vec_lcm(&vec![]), Some(1));
    assert_eq!(vec_lcm(&vec![2, 3, 4, 5]), Some(60));
    assert_eq!(vec_lcm(&vec![u64::MAX, u64::MAX - 1]), None);
}

#[test]
fn lcm_ignores_order() {
    let a = vec_lcm(&vec![12, 18, 8]);
    let b = vec_lcm(&vec![8, 12, 18]);
    let c = vec_lcm(&vec![18, 8, 12]);
    assert_eq!(a, Some(72));
    assert_eq!(a, b);
    assert_eq!(b, c);
}

#[test]
fn tape_wraps_round() {
    let mut tape = Instructions::new(vec![Direction::Left, Direction::Right]);
    assert_eq!(tape.len(), 2);
    assert_eq!(tape.next(), Direction::Left);
    assert_eq!(tape.next(), Direction::Right);
    assert_eq!(tape.next(), Direction::Left);
}

#[test]
fn graph_with_cycles_builds_twice_alike() {
    let text = NetworkText::parse(PAIRS).unwrap();
    assert_eq!(text.tape, vec![Direction::Left, Direction::Right]);
    assert_eq!(text.defs.len(), 8);
    let origins = vec![b"11A".to_vec(), b"22A".to_vec()];
    let shape = |m: &NodeMap| {
        let mut edges = Vec::new();
        for k in 0..m.len() {
            let node = m.node(k);
            let left = m.node(node.get(Direction::Left)).name_bytes().clone();
            let right = m.node(node.get(Direction::Right)).name_bytes().clone();
            edges.push((node.name_bytes().clone(), left, right));
        }
        edges.sort();
        edges
    };
    let first = NodeMap::from(&text, &origins).unwrap();
    let second = NodeMap::from(&NetworkText::parse(PAIRS).unwrap(), &origins).unwrap();
    assert_eq!(first.len(), 8);
    assert_eq!(shape(&first), shape(&second));
    let xxx = (b"XXX".to_vec(), b"XXX".to_vec(), b"XXX".to_vec());
    assert!(shape(&first).contains(&xxx));
    assert_eq!(first.node(first.current_node()).name_bytes(), &b"22A".to_vec());
}

#[test]
fn only_reached_nodes_are_built() {
    let text = NetworkText::parse(PAIRS).unwrap();
    let map = NodeMap::from(&text, &vec![b"11A".to_vec()]).unwrap();
    assert_eq!(map.len(), 4);
}

#[test]
fn walk_steps_follow_the_tape() {
    let text = NetworkText::parse(PAIRS).unwrap();
    let mut map = NodeMap::from(&text, &vec![b"22A".to_vec()]).unwrap();
    let start = map.current_node();
    let names: Vec<Vec<u8>> = (0..4)
        .map(|_| {
            let k = map.next();
            map.node(k).name_bytes().clone()
        })
        .collect();
    assert_eq!(
        names,
        vec![b"22B".to_vec(), b"22C".to_vec(), b"22Z".to_vec(), b"22B".to_vec()]
    );
    assert_eq!(map.steps_until(start, &Goal::EndsWith(b'Z')), Ok(3));
}

#[test]
fn network_errors() {
    assert_eq!(solve_part1("").err(), Some(NetworkError::EmptyTape));
    assert_eq!(solve_part1("LXR\n\nAAA = (AAA, AAA)").err(), Some(NetworkError::BadDirection));
    assert_eq!(solve_part1("LR\n\nAAA = (AAA AAA)").err(), Some(NetworkError::MalformedLine));
    assert_eq!(solve_part1("LR\n\nBBB = (BBB, BBB)").err(), Some(NetworkError::NoOrigin));
    assert_eq!(solve_part1("LR\n\nAAA = (BBB, AAA)").err(), Some(NetworkError::UndefinedNode));
    assert_eq!(solve_part1("LR\n\nAAA = (AAA, AAA)\nZZZ = (ZZZ, ZZZ)").err(), Some(NetworkError::StepLimit));
}

#[test]
fn later_definition_wins() {
    let input = "L\n\nAAA = (BBB, BBB)\nAAA = (ZZZ, ZZZ)\nZZZ = (ZZZ, ZZZ)";
    assert_eq!(solve_part1(input), Ok(1));
}

#[test]
fn combined_count_too_large() {
    let primes: [u64; 16] = [2, 3, 5, 7, 11, 13, 17, 19, 23, 29, 31, 37, 41, 43, 47, 53];
    let mut text = String::from("L\n\n");
    for p in primes {
        let name = |i: u64| {
            if i == 0 {
                format!("Q{}A", p)
            } else if i == p {
                format!("Q{}Z", p)
            } else {
                format!("Q{}N{}", p, i)
            }
        };
        for i in 0..p {
            let next = name(i + 1);
            text.push_str(&format!("{} = ({}, {})\n", name(i), next, next));
        }
        text.push_str(&format!("{} = ({}, {})\n", name(p), name(p), name(p)));
    }
    assert_eq!(solve_part2(&text), Err(NetworkError::Overflow));
    let product: u128 = primes[..15].iter().map(|&p| p as u128).product();
    assert!(product <= u64::MAX as u128);
    assert_eq!(vec_lcm(&primes[..15].to_vec()), Some(product as u64));
}
