//! The pure puzzle modules: fuel, wires, passwords, orbits, image
//! layers, sightlines, and the small vocabularies.

use advent::solutions::day01::{fuel_for_mass, masses, solve_01 as fuel_solve_01, total_fuel_for_mass};
use advent::solutions::day03::{manhattan_distance, parse, solve_01 as wires_solve_01, solve_02 as wires_solve_02, Dir, Step};
use advent::solutions::day04::{check_01, check_02, digits, solve_01 as pw_solve_01};
use advent::solutions::day06::{count_orbits, solve_01 as orbit_solve_01, solve_02 as orbit_solve_02, to_graph};
use advent::solutions::day08::{input_gen, solve_01 as img_solve_01, solve_02 as img_solve_02, Pixel};
use advent::solutions::day10::{gcd, parse_input, solve_01 as ast_solve_01, Slope};
use advent::intcode::load_initial_memory;
use advent::solutions::day11::{camera_color, count_panels, go, replay_paint, Color, Direction, Turn};
use advent::solutions::day13::solve_01 as arcade_solve_01;
use advent::solutions::day12::{parse_vector, solve_01 as moons_solve_01, solve_02 as moons_solve_02, Moon, Vector};
use advent::solutions::day13::Tile;

#[test]
fn day01_part_one() {
    assert_eq!(fuel_for_mass(12), 2);
    assert_eq!(fuel_for_mass(14), 2);
    assert_eq!(fuel_for_mass(1_969), 654);
    assert_eq!(fuel_for_mass(100_756), 33_583);
}

#[test]
fn day01_part_two() {
    assert_eq!(total_fuel_for_mass(14), 2);
    assert_eq!(total_fuel_for_mass(1_969), 966);
    assert_eq!(total_fuel_for_mass(100_756), 50_346);
}

#[test]
fn masses_reads_one_value_per_line() {
    assert_eq!(masses("12\n14\n1969\n"), vec![12, 14, 1969]);
    assert_eq!(fuel_solve_01("12\n14\n1969\n100756"), 2 + 2 + 654 + 33583);
}

#[test]
fn test_part_one() {
    let input = parse(
        "R98,U47,R26,D63,R33,U87,L62,D20,R33,U53,R51
      U98,R91,D20,R16,D67,R40,U7,R15,U6,R7",
    );
    let res = wires_solve_01(input);
    assert_eq!(res, 135);
}

#[test]
fn wires_combined_length() {
    let input = parse(
        "R98,U47,R26,D63,R33,U87,L62,D20,R33,U53,R51
      U98,R91,D20,R16,D67,R40,U7,R15,U6,R7",
    );
    let res = wires_solve_02(input);
    assert_eq!(res, 410);
}

#[test]
fn wires_vocabulary() {
    let step = Step { dir: Dir::Up, len: 3 };
    assert_eq!(step.dp(), (0, 1));
    assert_eq!(manhattan_distance((-3, 4)), 7);
}

#[test]
fn day04_part_one() {
    assert!(check_01(111_111));
    assert!(!check_01(223_450));
    assert!(!check_01(123_789));
}

#[test]
fn day04_part_two() {
    assert!(check_02(112_233));
    assert!(!check_02(123_444));
    assert!(check_02(111_122));
}

#[test]
fn password_digits_and_counts() {
    assert_eq!(digits(120), vec![1, 2, 0]);
    assert_eq!(digits(0), Vec::<usize>::new());
    assert_eq!(pw_solve_01(111_111, 111_112), 2);
}

#[test]
fn day06_part_one() {
    let graph = to_graph(
        "COM)B
    B)C
    C)D
    D)E
    E)F
    B)G
    G)H
    D)I
    E)J
    J)K
    K)L",
    );
    assert_eq!(orbit_solve_01(&graph), 42);
    assert_eq!(count_orbits(b"D", &graph), 3);
    assert_eq!(count_orbits(b"COM", &graph), 0);
}

#[test]
fn day06_part_two() {
    let graph = to_graph(
        "COM)B
      B)C
      C)D
      D)E
      E)F
      B)G
      G)H
      D)I
      E)J
      J)K
      K)L
      K)YOU
      I)SAN",
    );
    assert_eq!(orbit_solve_02(&graph), 4);
}

#[test]
fn image_checksum_and_stacking() {
    let r = input_gen("123456789012");
    assert_eq!(r.len(), 12);
    assert_eq!(r[0], Pixel::White);
    // layer "011222" has one black and two whites, layer "111000" three
    // of each: the first wins and scores 2 * 1
    let c = img_solve_01(&input_gen("011222111000"), 3, 2);
    assert_eq!(c, 2);

    let img = img_solve_02(&input_gen("0222112222120000"), 2, 2);
    assert_eq!(
        img,
        vec![Pixel::Black, Pixel::White, Pixel::White, Pixel::Black]
    );

    assert_eq!(Pixel::Transparent.paint(Pixel::White), Pixel::White);
    assert_eq!(Pixel::Black.paint(Pixel::White), Pixel::Black);
}

#[test]
fn small() {
    let asteroids = parse_input(
        ".#..#
    .....
    #####
    ....#
    ...##",
    );
    let (count, coord) = ast_solve_01(&asteroids);
    assert_eq!(count, 8);
    assert_eq!(coord, (3, 4));
}

#[test]
fn medium() {
    let asteroids = parse_input(
        "......#.#.
      #..#.#....
      ..#######.
      .#.#.###..
      .#..#.....
      ..#....#.#
      #..#....#.
      .##.#..###
      ##...#..#.
      .#....####",
    );
    let (count, coord) = ast_solve_01(&asteroids);
    assert_eq!(count, 33);
    assert_eq!(coord, (5, 8));
}

#[test]
fn large() {
    let asteroids = parse_input(
        ".#..##.###...#######
      ##.############..##.
      .#.######.########.#
      .###.#######.####.#.
      #####.##.#.##.###.##
      ..#####..#.#########
      ####################
      #.####....###.#.#.##
      ##.#################
      #####.##.###..####..
      ..######..##.#######
      ####.##.####...##..#
      .#####..#.######.###
      ##...#.##########...
      #.##########.#######
      .####.#.###.###.#.##
      ....##.##.###..#####
      .#.#.###########.###
      #.#.#.#####.####.###
      ###.##.####.##.#..##",
    );
    let (count, coord) = ast_solve_01(&asteroids);
    assert_eq!(count, 210);
    assert_eq!(coord, (11, 13));
}

#[test]
fn slopes_reduce_to_lowest_terms() {
    assert_eq!(gcd(12, -18), 6);
    assert_eq!(gcd(0, 5), 5);
    let s = Slope::from((1, 1), (7, -3));
    assert_eq!(s, Slope { dx: 3, dy: -2 });
    assert_eq!(Slope::from((2, 2), (2, 2)), Slope { dx: 0, dy: 0 });
}

#[test]
fn robot_vocabulary() {
    assert_eq!(Color::from(0), Color::Black);
    assert_eq!(Color::from(1), Color::White);
    assert_eq!(Color::White.into(), 1);
    assert_eq!(Turn::from(0), Turn::Left);
    assert_eq!(Direction::Up.turn(Turn::Left), Direction::Left);
    assert_eq!(Direction::Up.turn(Turn::Right), Direction::Right);
    assert_eq!(Direction::Down.turn(Turn::Left), Direction::Right);
    assert_eq!(Direction::Left.turn(Turn::Right), Direction::Up);
    assert_eq!(go(0, 0, Direction::Up), (0, 1));
    assert_eq!(go(2, 3, Direction::Left), (1, 3));
}

#[test]
fn arcade_tiles() {
    assert_eq!(Tile::from(0), Tile::Empty);
    assert_eq!(Tile::from(2), Tile::Block);
    assert_eq!(Tile::from(4), Tile::Ball);
}

#[test]
fn day12_part_one() {
    let input = "<x=-8, y=-10, z=0>
    <x=5, y=5, z=10>
    <x=2, y=-7, z=3>
    <x=9, y=-8, z=-3>";

    let moons: Vec<Moon> = input
        .lines()
        .map(|line| {
            let p = parse_vector(line.trim()).expect("well-formed moon line");
            let v = Vector { x: 0, y: 0, z: 0 };
            Moon { p, v }
        })
        .collect();

    assert_eq!(moons_solve_01(&moons, 99), Some(1940));
}

#[test]
fn day12_part_two() {
    let input = "<x=-8, y=-10, z=0>
    <x=5, y=5, z=10>
    <x=2, y=-7, z=3>
    <x=9, y=-8, z=-3>";

    let moons: Vec<Moon> = input
        .lines()
        .map(|line| {
            let p = parse_vector(line.trim()).expect("well-formed moon line");
            let v = Vector { x: 0, y: 0, z: 0 };
            Moon { p, v }
        })
        .collect();

    assert_eq!(moons_solve_02(&moons), Some(4_686_774_924));
}

#[test]
fn moon_vocabulary() {
    let v = parse_vector("<x=-8, y=-10, z=0>").unwrap();
    assert_eq!(v, Vector { x: -8, y: -10, z: 0 });
    assert!(parse_vector("x=1, y=2, z=3").is_none());
    assert_eq!(v.energy(), 18);
    let a = Vector { x: 1, y: 5, z: 9 };
    let b = Vector { x: 3, y: 5, z: 7 };
    assert_eq!(a.diff(b), (1, 0, -1));
    let m = Moon { p: Vector { x: 2, y: 1, z: -3 }, v: Vector { x: -3, y: -2, z: 1 } };
    assert_eq!(m.energy(), 36);
}

#[test]
fn robot_replay_and_camera() {
    let outs = vec![1, 0, 0, 0, 1, 0];
    let (canvas, loc, _) = replay_paint(&outs, false);
    assert_eq!(canvas.len(), 3);
    assert_eq!(canvas[0], ((0, 0), Color::White));
    assert_eq!(canvas[1], ((-1, 0), Color::Black));
    assert_eq!(canvas[2], ((-1, -1), Color::White));
    assert_eq!(loc, (0, -1));
    assert_eq!(count_panels(&canvas), 3);
    assert_eq!(camera_color(&canvas, (0, 0)), Color::White);
    assert_eq!(camera_color(&canvas, (-1, 0)), Color::Black);
    assert_eq!(camera_color(&canvas, (5, 5)), Color::Black);
}

#[test]
fn arcade_screen_blocks() {
    let mem = load_initial_memory("104,1,104,2,104,2,104,3,104,4,104,2,99").unwrap();
    assert_eq!(arcade_solve_01(&mem), 2);
    // a later draw erases the block under it
    let mem = load_initial_memory("104,1,104,2,104,2,104,1,104,2,104,0,99").unwrap();
    assert_eq!(arcade_solve_01(&mem), 0);
}
