use aoc2023::pipe_maze::{
    solve_part1, solve_part2, AreaPartition, Direction, MazeError, PipeMap, Pos, Tile,
};

const SQUARE_LOOP: &str = ".....
.S-7.
.|.|.
.L-J.
.....";

#[test]
fn day10_example_part1() {
    let input = "7-F7-
.FJ|7
SJLL7
|F--J
LJ.LJ";
    assert_eq!(solve_part1(input), Ok(8));
}

#[test]
fn day10_example_part2() {
    let input = "FF7FSF7F7F7F7F7F---7
L|LJ||||||||||||F--J
FL-7LJLJ||||||LJL-77
F--JF--7||LJLJ7F7FJ-
L---JF-JLJ.||-FJLJJ7
|F|F-JF---7F7-L7L|7|
|FFJF7L7F-JF7|JL---7
7-L-JL7||F7|L7F-7F7|
L.L7LFJ|||||FJL7||LJ
L7JLJL-JLJLJL--JLJ.L";

    assert_eq!(solve_part2(input), Ok(10));
}

#[test]
fn example_part2_2() {
    let input = "..........
.S------7.
.|F----7|.
.||....||.
.||....||.
.|L-7F-J|.
.|..||..|.
.L--JL--J.
..........";

    assert_eq!(solve_part2(input), Ok(4));
}

#[test]
fn squeezed_between_pipes_is_outside() {
    let input = "..........
.S------7.
.|F----7|.
.||OOOO||.
.||OOOO||.
.|L-7F-J|.
.|II||II|.
.L--JL--J.
..........";
    assert_eq!(solve_part2(input), Err(MazeError::UnknownSymbol));
    let cleaned = input.replace('O', ".").replace('I', ".");
    assert_eq!(solve_part2(&cleaned), Ok(4));
}

#[test]
fn square_loop_farthest_and_area() {
    assert_eq!(solve_part1(SQUARE_LOOP), Ok(4));
    assert_eq!(solve_part2(SQUARE_LOOP), Ok(1));
}

#[test]
fn partition_counts_every_cell() {
    let map = PipeMap::parse(SQUARE_LOOP).unwrap();
    let a = map.partition().unwrap();
    assert_eq!(
        a,
        AreaPartition {
            enclosed: 1,
            on_loop: 8,
            exterior: 16
        }
    );
    assert_eq!(a.enclosed + a.on_loop + a.exterior, 25);
}

#[test]
fn trailing_newline_is_accepted() {
    let input = format!("{}\n", SQUARE_LOOP);
    assert_eq!(solve_part1(&input), Ok(4));
}

#[test]
fn loop_length_is_even() {
    let map = PipeMap::parse(SQUARE_LOOP).unwrap();
    assert_eq!(map.loop_length(Direction::East), Some(8));
    assert_eq!(map.loop_length(Direction::South), Some(8));
    assert_eq!(map.loop_length(Direction::North), None);
    assert_eq!(map.loop_length(Direction::West), None);
    assert_eq!(map.farthest_distance(), Ok(4));
}

#[test]
fn walk_needs_both_ends_to_join() {
    let map = PipeMap::parse(SQUARE_LOOP).unwrap();
    let origin = Pos { x: 1, y: 1 };
    assert_eq!(map.get(origin), Some(Tile::Origin));
    assert_eq!(
        map.walk(origin, Direction::East),
        Some((Pos { x: 2, y: 1 }, Tile::Pipe(Direction::East, Direction::West)))
    );
    assert_eq!(
        map.walk(Pos { x: 2, y: 1 }, Direction::West),
        Some((origin, Tile::Origin))
    );
    assert_eq!(map.walk(origin, Direction::North), None);
    assert_eq!(map.walk(Pos { x: 1, y: 0 }, Direction::South), None);
    assert_eq!(map.walk(Pos { x: 0, y: 0 }, Direction::West), None);
}

#[test]
fn bounds_of_the_grid() {
    let map = PipeMap::parse(SQUARE_LOOP).unwrap();
    assert!(map.in_bounds(&Pos { x: 0, y: 0 }));
    assert!(map.in_bounds(&Pos { x: 4, y: 4 }));
    assert!(!map.in_bounds(&Pos { x: 5, y: 0 }));
    assert!(!map.in_bounds(&Pos { x: 0, y: -1 }));
    assert_eq!(map.get(Pos { x: -1, y: 2 }), None);
    assert_eq!(map.get(Pos { x: 0, y: 0 }), Some(Tile::Ground));
}

#[test]
fn directions_and_tiles() {
    assert_eq!(Direction::North.opposite(), Direction::South);
    assert_eq!(Direction::East.opposite(), Direction::West);
    assert_eq!(Pos { x: 3, y: 3 }.advance(Direction::North), Pos { x: 3, y: 2 });
    assert_eq!(Pos { x: 3, y: 3 }.advance(Direction::West), Pos { x: 2, y: 3 });
    assert_eq!(Tile::from_symbol(b'7'), Some(Tile::Pipe(Direction::South, Direction::West)));
    assert_eq!(Tile::from_symbol(b'x'), None);
    assert!(Tile::Origin.has_direction(Direction::West));
    assert!(!Tile::Ground.has_direction(Direction::West));
    assert!(Tile::Pipe(Direction::North, Direction::East).has_direction(Direction::East));
    assert!(!Tile::Pipe(Direction::North, Direction::East).has_direction(Direction::South));
}

#[test]
fn grid_errors() {
    assert_eq!(PipeMap::parse("").err(), Some(MazeError::Empty));
    assert_eq!(PipeMap::parse("\n..").err(), Some(MazeError::Empty));
    assert_eq!(PipeMap::parse("S.\n...").err(), Some(MazeError::NotRectangular));
    assert_eq!(PipeMap::parse("S.\n.x").err(), Some(MazeError::UnknownSymbol));
    assert_eq!(PipeMap::parse("..\n..").err(), Some(MazeError::NoOrigin));
    assert_eq!(PipeMap::parse("S.\n.S").err(), Some(MazeError::SeveralOrigins));
    assert_eq!(solve_part1("S.\n.."), Err(MazeError::NoLoop));
    assert_eq!(solve_part2("S.\n.."), Err(MazeError::NoLoop));
}
