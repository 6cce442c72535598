use intcode::puzzles::moves::{
    convert_direction, is_digit, parse_direction, parse_int, parse_move, parse_u32,
    read_input_line, Direction, Move,
};
use intcode::puzzles::wires::{
    find_closest_intersection, find_fewest_steps, visited, Point, Wire, Wires,
};

fn panel(first: &str, second: &str) -> Wires {
    Wires {
        wire1: visited(read_input_line(first).expect("first wire")),
        wire2: visited(read_input_line(second).expect("second wire")),
    }
}

#[test]
fn wires_test_example1() {
    let wires = panel("R75,D30,R83,U83,L12,D49,R71,U7,L72", "U62,R66,U55,R34,D71,R55,D58,R83");
    let distance = find_closest_intersection(&wires);
    assert_eq!(distance, Some(159));
}

#[test]
fn test_parse_move() {
    assert_eq!(
        parse_move("U123".as_bytes()),
        Some(("".as_bytes(), Move::new(Direction::UP, 123)))
    );
}

#[test]
fn second_example_distances() {
    let wires = panel(
        "R98,U47,R26,D63,R33,U87,L62,D20,R33,U53,R51",
        "U98,R91,D20,R16,D67,R40,U7,R15,U6,R7",
    );
    assert_eq!(find_closest_intersection(&wires), Some(135));
    assert_eq!(find_fewest_steps(&wires), Some(410));
}

#[test]
fn first_example_fewest_steps() {
    let wires = panel("R75,D30,R83,U83,L12,D49,R71,U7,L72", "U62,R66,U55,R34,D71,R55,D58,R83");
    assert_eq!(find_fewest_steps(&wires), Some(610));
}

#[test]
fn small_example_crossings() {
    let wires = panel("R8,U5,L5,D3", "U7,R6,D4,L4");
    let mut crossings = wires.crossings();
    crossings.sort_by_key(|p| (p.x, p.y));
    assert_eq!(crossings, vec![Point { x: 3, y: 3 }, Point { x: 6, y: 5 }]);
    assert_eq!(find_closest_intersection(&wires), Some(6));
    assert_eq!(find_fewest_steps(&wires), Some(30));
}

#[test]
fn wires_that_never_meet() {
    let wires = panel("R3", "U3");
    assert_eq!(wires.crossings(), vec![]);
    assert_eq!(find_closest_intersection(&wires), None);
    assert_eq!(find_fewest_steps(&wires), None);
}

#[test]
fn first_visit_wins() {
    // the wire passes (1, 0) after 1 step and again after 3
    let wire = visited(vec![Move::new(Direction::RIGHT, 2), Move::new(Direction::LEFT, 2)]);
    assert_eq!(wire.get(&Point { x: 1, y: 0 }), Some(1));
    assert_eq!(wire.get(&Point { x: 2, y: 0 }), Some(2));
    assert_eq!(wire.get(&Point { x: 0, y: 0 }), Some(4));
    assert_eq!(wire.get(&Point { x: 3, y: 0 }), None);
    assert_eq!(
        wire.points(),
        &vec![Point { x: 1, y: 0 }, Point { x: 2, y: 0 }, Point { x: 0, y: 0 }]
    );
}

#[test]
fn points_with_equal_sums_are_kept_apart() {
    let mut wire = Wire::new();
    wire.record(Point { x: -1, y: 1 }, 5);
    wire.record(Point { x: 1, y: -1 }, 6);
    wire.record(Point { x: -1, y: 1 }, 7);
    wire.record(Point { x: i32::MIN, y: i32::MAX }, 8);
    wire.record(Point { x: i32::MAX, y: i32::MIN }, 9);
    assert_eq!(wire.get(&Point { x: -1, y: 1 }), Some(5));
    assert_eq!(wire.get(&Point { x: 1, y: -1 }), Some(6));
    assert_eq!(wire.get(&Point { x: i32::MIN, y: i32::MAX }), Some(8));
    assert_eq!(wire.get(&Point { x: i32::MAX, y: i32::MIN }), Some(9));
    assert_eq!(wire.get(&Point { x: 0, y: 0 }), None);
    assert_eq!(wire.points().len(), 4);
}

#[test]
fn point_add_and_distance() {
    let mut p = Point { x: 3, y: -4 };
    p.add(-5, 1);
    assert_eq!(p, Point { x: -2, y: -3 });
    assert_eq!(p.distance(), 5);
    assert_eq!(Point { x: i32::MIN, y: i32::MIN }.distance(), 4294967296);
}

#[test]
fn move_getters() {
    let m = Move::new(Direction::LEFT, 72);
    assert_eq!(m.direction(), Direction::LEFT);
    assert_eq!(m.distance(), 72);
}

#[test]
fn direction_letters() {
    assert_eq!(convert_direction(b'U'), Some(Direction::UP));
    assert_eq!(convert_direction(b'D'), Some(Direction::DOWN));
    assert_eq!(convert_direction(b'L'), Some(Direction::LEFT));
    assert_eq!(convert_direction(b'R'), Some(Direction::RIGHT));
    assert_eq!(convert_direction(b'u'), None);
    assert_eq!(parse_direction(b"R75"), Some((&b"75"[..], Direction::RIGHT)));
    assert_eq!(parse_direction(b""), None);
    assert_eq!(parse_direction(b"X1"), None);
}

#[test]
fn digits_and_numbers() {
    assert!(is_digit(b'0') && is_digit(b'9'));
    assert!(!is_digit(b'/') && !is_digit(b':'));
    assert_eq!(parse_u32(b"0"), Some(0));
    assert_eq!(parse_u32(b"0123"), Some(123));
    assert_eq!(parse_u32(b"4294967295"), Some(4294967295));
    assert_eq!(parse_u32(b"4294967296"), None);
    assert_eq!(parse_u32(b""), None);
    assert_eq!(parse_u32(b"12a"), None);
    assert_eq!(parse_int(b"12345"), Some((&b"5"[..], 1234)));
    assert_eq!(parse_int(b"7,"), Some((&b","[..], 7)));
    assert_eq!(parse_int(b"x7"), None);
}

#[test]
fn a_move_takes_at_most_four_digits() {
    assert_eq!(parse_move(b"D12345"), Some((&b"5"[..], Move::new(Direction::DOWN, 1234))));
    assert_eq!(parse_move(b"L9x"), Some((&b"x"[..], Move::new(Direction::LEFT, 9))));
    assert_eq!(parse_move(b"L"), None);
    assert_eq!(parse_move(b"12"), None);
}

#[test]
fn lines_of_moves() {
    assert_eq!(
        read_input_line("R8,U5,L5,D3"),
        Some(vec![
            Move::new(Direction::RIGHT, 8),
            Move::new(Direction::UP, 5),
            Move::new(Direction::LEFT, 5),
            Move::new(Direction::DOWN, 3),
        ])
    );
    assert_eq!(read_input_line("U1"), Some(vec![Move::new(Direction::UP, 1)]));
    assert_eq!(read_input_line(""), None);
    assert_eq!(read_input_line("U1,"), None);
    assert_eq!(read_input_line(",U1"), None);
    assert_eq!(read_input_line("U1,,D2"), None);
    assert_eq!(read_input_line("U1,X2"), None);
    assert_eq!(read_input_line("U1,D"), None);
}
