use advent2019::orbits::{count_orbits, parse_orbits, path_for, same, transfers, Orbit};
use advent2019::passwords::{count_of, count_passwords, meets_criteria};
use advent2019::text::{parse_integer, split_fields, split_lines};
use advent2019::wires::{
    fewest_steps, length, map_to_points, parse_input, parse_pair, trace, Direction, Instruction,
    Point,
};

fn wire(text: &str) -> Vec<Instruction> {
    parse_input(text.as_bytes()).unwrap()
}

#[test]
fn wire_descriptions_are_read() {
    assert_eq!(
        parse_input(b"R8,U5,L5,D3"),
        Some(vec![
            Instruction { direction: Direction::Right, steps: 8 },
            Instruction { direction: Direction::Up, steps: 5 },
            Instruction { direction: Direction::Left, steps: 5 },
            Instruction { direction: Direction::Down, steps: 3 },
        ])
    );
    assert_eq!(
        parse_input(b"U2147483647,D-2147483648,L007"),
        Some(vec![
            Instruction { direction: Direction::Up, steps: i32::MAX },
            Instruction { direction: Direction::Down, steps: i32::MIN },
            Instruction { direction: Direction::Left, steps: 7 },
        ])
    );
}

#[test]
fn malformed_wire_descriptions_are_refused() {
    assert_eq!(parse_input(b""), None);
    assert_eq!(parse_input(b"R8,,U5"), None);
    assert_eq!(parse_input(b"R8,U5,"), None);
    assert_eq!(parse_input(b"X8"), None);
    assert_eq!(parse_input(b"r8"), None);
    assert_eq!(parse_input(b"R"), None);
    assert_eq!(parse_input(b"R8 "), None);
    assert_eq!(parse_input(b"R8\n"), None);
    assert_eq!(parse_input(b"R2147483648"), None);
    assert_eq!(parse_input(b"R-2147483649"), None);
    assert_eq!(parse_input(b"8R"), None);
}

#[test]
fn wire_is_traced_step_by_step() {
    let points = trace(&wire("R2,U1,L3,D2")).unwrap();
    let expected: Vec<Point> = [(1, 0), (2, 0), (2, 1), (1, 1), (0, 1), (-1, 1), (-1, 0), (-1, -1)]
        .iter()
        .map(|(x, y)| Point { x: *x, y: *y })
        .collect();
    assert_eq!(points, expected);
    assert_eq!(trace(&Vec::new()), Some(Vec::new()));
    assert_eq!(trace(&wire("R0,U-4,L1")), Some(vec![Point { x: -1, y: 0 }]));
}

#[test]
fn overlong_wire_is_refused() {
    let long = wire("R2147483647,U1");
    assert_eq!(length(&long), None);
    assert_eq!(length(&wire("R2147483647,U0,L-5")), Some(i32::MAX));
    assert_eq!(length(&wire("R8,U5,L5,D3")), Some(21));
    assert_eq!(length(&Vec::new()), Some(0));
    assert!(trace(&long).is_none());
    assert!(map_to_points(&long).is_none());
    assert_eq!(fewest_steps(&long, &wire("R1")), None);
    assert_eq!(fewest_steps(&wire("R1"), &long), None);
}

#[test]
fn first_visit_counts() {
    // Runs right, comes back over its own track, and goes on to the left.
    let visits = map_to_points(&wire("R3,L5,U1")).unwrap();
    assert_eq!(visits.steps_to(Point { x: 1, y: 0 }), Some(1));
    assert_eq!(visits.steps_to(Point { x: 3, y: 0 }), Some(3));
    assert_eq!(visits.steps_to(Point { x: 2, y: 0 }), Some(2));
    assert_eq!(visits.steps_to(Point { x: 0, y: 0 }), Some(6));
    assert_eq!(visits.steps_to(Point { x: -2, y: 0 }), Some(8));
    assert_eq!(visits.steps_to(Point { x: -2, y: 1 }), Some(9));
    assert_eq!(visits.steps_to(Point { x: -3, y: 0 }), None);
    assert_eq!(visits.steps_to(Point { x: 0, y: 1 }), None);
    assert_eq!(visits.steps_to(Point { x: i32::MIN, y: i32::MAX }), None);
}

#[test]
fn fewest_combined_steps() {
    assert_eq!(fewest_steps(&wire("R8,U5,L5,D3"), &wire("U7,R6,D4,L4")), Some(30));
    assert_eq!(
        fewest_steps(
            &wire("R75,D30,R83,U83,L12,D49,R71,U7,L72"),
            &wire("U62,R66,U55,R34,D71,R55,D58,R83")
        ),
        Some(610)
    );
    assert_eq!(
        fewest_steps(
            &wire("R98,U47,R26,D63,R33,U87,L62,D20,R33,U53,R51"),
            &wire("U98,R91,D20,R16,D67,R40,U7,R15,U6,R7")
        ),
        Some(410)
    );
}

#[test]
fn wires_that_never_cross() {
    assert_eq!(fewest_steps(&wire("R5"), &wire("L5")), None);
    assert_eq!(fewest_steps(&wire("R5"), &Vec::new()), None);
    // The origin counts only when a wire comes back to it.
    assert_eq!(fewest_steps(&wire("R1,L1"), &wire("U1,D1")), Some(4));
}

const MAP: &[u8] = b"COM)B\nB)C\nC)D\nD)E\nE)F\nB)G\nG)H\nD)I\nE)J\nJ)K\nK)L\n";
const WITH_TRAVELLERS: &[u8] = b"COM)B\nB)C\nC)D\nD)E\nE)F\nB)G\nG)H\nD)I\nE)J\nJ)K\nK)L\nK)YOU\nI)SAN";

#[test]
fn orbit_maps_are_read() {
    let map = parse_orbits(b"COM)B\nB)C\n").unwrap();
    assert_eq!(
        map,
        vec![
            Orbit { center: b"COM".to_vec(), satellite: b"B".to_vec() },
            Orbit { center: b"B".to_vec(), satellite: b"C".to_vec() },
        ]
    );
    assert_eq!(parse_orbits(b"").unwrap().len(), 0);
    assert_eq!(parse_orbits(b"\n").unwrap().len(), 0);
    assert_eq!(
        parse_orbits(b"A)B)C"),
        Some(vec![Orbit { center: b"A".to_vec(), satellite: b"B".to_vec() }])
    );
    assert_eq!(parse_orbits(b")"), Some(vec![Orbit { center: Vec::new(), satellite: Vec::new() }]));
    assert_eq!(parse_orbits(MAP).unwrap().len(), 11);
}

#[test]
fn malformed_orbit_maps_are_refused() {
    assert_eq!(parse_orbits(b"COM"), None);
    assert_eq!(parse_orbits(b"COM)B\nBC\n"), None);
    assert_eq!(parse_orbits(b"COM)B\n\nB)C\n"), None);
    assert_eq!(parse_orbits(b"COM)B\n\n"), None);
}

#[test]
fn orbits_are_counted() {
    let map = parse_orbits(MAP).unwrap();
    assert_eq!(count_orbits(&map, b"COM", 0, map.len()), Some(42));
    assert_eq!(count_orbits(&map, b"D", 3, map.len()), Some(3 + 4 + 5 + 4 + 5 + 6 + 7));
    assert_eq!(count_orbits(&map, b"L", 7, 0), Some(7));
    assert_eq!(count_orbits(&map, b"nowhere", 5, 0), Some(5));
    // The longest chain below COM is seven objects long.
    assert_eq!(count_orbits(&map, b"COM", 0, 7), Some(42));
    assert_eq!(count_orbits(&map, b"COM", 0, 6), None);
    assert_eq!(count_orbits(&map, b"K", u64::MAX, 5), None);
    assert_eq!(count_orbits(&map, b"L", u64::MAX, 5), Some(u64::MAX));
}

#[test]
fn orbits_in_a_circle_run_out_of_fuel() {
    let map = parse_orbits(b"A)B\nB)A\nQ)Y\nQ)Z\n").unwrap();
    assert_eq!(count_orbits(&map, b"A", 0, 1000), None);
    assert_eq!(path_for(&map, b"A", b"Q", 1000), None);
    assert_eq!(transfers(&map, b"A", b"Y", b"Z", 1000), None);
    assert_eq!(count_orbits(&map, b"Q", 0, 1000), Some(2));
}

#[test]
fn way_up_from_an_object() {
    let map = parse_orbits(MAP).unwrap();
    let names = |way: Option<Vec<Vec<u8>>>| -> Option<Vec<String>> {
        way.map(|w| w.into_iter().map(|n| String::from_utf8(n).unwrap()).collect())
    };
    let expect = |list: &[&str]| -> Option<Vec<String>> {
        Some(list.iter().map(|n| n.to_string()).collect())
    };
    assert_eq!(names(path_for(&map, b"COM", b"K", 20)), expect(&["J", "E", "D", "C", "B", "COM"]));
    assert_eq!(names(path_for(&map, b"COM", b"I", 20)), expect(&["D", "C", "B", "COM"]));
    assert_eq!(names(path_for(&map, b"COM", b"B", 20)), expect(&["COM"]));
    assert_eq!(names(path_for(&map, b"E", b"L", 20)), expect(&["K", "J", "E"]));
    assert_eq!(names(path_for(&map, b"COM", b"COM", 20)), expect(&[]));
    assert_eq!(names(path_for(&map, b"COM", b"Z", 20)), expect(&[]));
    assert_eq!(names(path_for(&map, b"L", b"K", 0)), expect(&[]));
    assert_eq!(names(path_for(&map, b"G", b"H", 0)), expect(&["G"]));
    assert_eq!(names(path_for(&map, b"COM", b"K", 4)), None);
    assert_eq!(names(path_for(&map, b"COM", b"K", 5)), expect(&["J", "E", "D", "C", "B", "COM"]));
}

#[test]
fn orbital_transfers() {
    let map = parse_orbits(WITH_TRAVELLERS).unwrap();
    assert_eq!(transfers(&map, b"COM", b"YOU", b"SAN", map.len()), Some(4));
    assert_eq!(transfers(&map, b"COM", b"SAN", b"YOU", map.len()), Some(4));
    assert_eq!(transfers(&map, b"COM", b"L", b"H", map.len()), Some(6));
    // Nobody circles the origin's own centre: there is no way up from it.
    assert_eq!(transfers(&map, b"COM", b"B", b"SAN", map.len()), None);
    assert_eq!(transfers(&map, b"COM", b"YOU", b"nobody", map.len()), None);
    assert_eq!(transfers(&map, b"COM", b"YOU", b"SAN", 2), None);
}

#[test]
fn names_compare_byte_by_byte() {
    assert!(same(b"COM", b"COM"));
    assert!(same(b"", b""));
    assert!(!same(b"COM", b"CON"));
    assert!(!same(b"COM", b"CO"));
    assert!(!same(b"", b"C"));
}

#[test]
fn password_criteria() {
    assert!(meets_criteria(112233));
    assert!(!meets_criteria(123444));
    assert!(meets_criteria(111122));
    assert!(!meets_criteria(111111));
    assert!(!meets_criteria(223450));
    assert!(!meets_criteria(123789));
    assert!(meets_criteria(11));
    assert!(!meets_criteria(0));
    assert!(!meets_criteria(121));
    assert!(meets_criteria(1223));
    assert_eq!(count_of(b"111122", b'1'), 4);
    assert_eq!(count_of(b"111122", b'2'), 2);
    assert_eq!(count_of(b"111122", b'3'), 0);
    assert_eq!(count_of(b"", b'3'), 0);
}

fn meets_by_hand(n: u64) -> bool {
    let s = n.to_string().into_bytes();
    let rising = s.windows(2).all(|w| w[0] <= w[1]);
    let pair = (b'0'..=b'9').any(|d| s.iter().filter(|c| **c == d).count() == 2);
    rising && pair
}

#[test]
fn passwords_are_counted() {
    assert_eq!(count_passwords(0, 0), 0);
    assert_eq!(count_passwords(10, 5), 0);
    assert_eq!(count_passwords(0, 100), 9);
    assert_eq!(count_passwords(11, 12), 1);
    assert_eq!(count_passwords(112233, 112234), 1);
    let by_hand = (110000..130000u64).filter(|n| meets_by_hand(*n)).count() as u64;
    assert_eq!(count_passwords(110000, 130000), by_hand);
    assert!(by_hand > 0);
}

#[test]
fn fields_and_numbers() {
    assert_eq!(split_fields(b"a,bc,,d", 7, b','), vec![(0, 1), (2, 4), (5, 5), (6, 7)]);
    assert_eq!(split_fields(b"a,bc,,d", 4, b','), vec![(0, 1), (2, 4)]);
    assert_eq!(split_fields(b"", 0, b','), vec![(0, 0)]);
    assert_eq!(split_fields(b",", 1, b','), vec![(0, 0), (1, 1)]);
    assert_eq!(split_fields(b"a\nb", 3, b'\n'), vec![(0, 1), (2, 3)]);
    let text = b"x-12,+3,45y";
    assert_eq!(parse_integer(text, 1, 4), Some(-12));
    assert_eq!(parse_integer(text, 2, 4), Some(12));
    assert_eq!(parse_integer(text, 5, 7), None);
    assert_eq!(parse_integer(text, 8, 10), Some(45));
    assert_eq!(parse_integer(text, 8, 11), None);
    assert_eq!(parse_integer(text, 3, 3), None);
    assert_eq!(parse_integer(text, 1, 2), None);
    assert_eq!(parse_integer(b"-9223372036854775808", 0, 20), Some(i64::MIN));
    assert_eq!(parse_integer(b"9223372036854775808", 0, 19), None);
}

#[test]
fn two_wires_from_one_text() {
    let (first, second) = parse_pair(b"R8,U5,L5,D3\nU7,R6,D4,L4\n").unwrap();
    assert_eq!(first, wire("R8,U5,L5,D3"));
    assert_eq!(second, wire("U7,R6,D4,L4"));
    assert_eq!(fewest_steps(&first, &second), Some(30));
    let (first, second) = parse_pair(b"R1\nU2\nthis line is not read").unwrap();
    assert_eq!(first, wire("R1"));
    assert_eq!(second, wire("U2"));
    assert_eq!(parse_pair(b""), None);
    assert_eq!(parse_pair(b"R8,U5"), None);
    assert_eq!(parse_pair(b"R8,U5\n"), None);
    assert_eq!(parse_pair(b"R8,U5\n\n"), None);
    assert_eq!(parse_pair(b"R8,U5\nX1\n"), None);
    assert_eq!(parse_pair(b"R8,U5\r\nU7\r\n"), None);
}

#[test]
fn lines_of_a_text() {
    assert_eq!(split_lines(b""), vec![]);
    assert_eq!(split_lines(b"\n"), vec![]);
    assert_eq!(split_lines(b"ab"), vec![(0, 2)]);
    assert_eq!(split_lines(b"ab\n"), vec![(0, 2)]);
    assert_eq!(split_lines(b"ab\ncd"), vec![(0, 2), (3, 5)]);
    assert_eq!(split_lines(b"ab\n\ncd\n"), vec![(0, 2), (3, 3), (4, 6)]);
    assert_eq!(split_lines(b"\n\n"), vec![(0, 0), (1, 1)]);
}
