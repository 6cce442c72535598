use intcode::adapters::arcade::{play, tile_char, Arcade, Pong};
use intcode::adapters::droid::{Direction as Heading, Game, GameMode, OPEN, OXYGEN, WALL};
use intcode::adapters::fixed::FixedInput;
use intcode::adapters::painter::{
    loc_to_array, paint_hull, turn_left, turn_right, Direction, Painter,
};
use intcode::adapters::pipeline::{
    all_stopped, best_chain, best_chain_of, best_feedback, best_feedback_of, chain, feedback,
    run_round, wire, Channel, OS,
};
use intcode::adapters::tractor::{
    scan, NextCoord, SearchDirection, Tractor, TractorState,
};
use intcode::vm::adapter::{Adapter, Input};
use intcode::vm::error::VmError;
use intcode::vm::machine::VM;
use intcode::vm::semantics::Status;

const STEPS: u64 = 100_000;

fn emitting(values: &[i64]) -> Vec<i64> {
    let mut program = Vec::new();
    for v in values {
        program.push(104);
        program.push(*v);
    }
    program.push(99);
    program
}

#[test]
fn turning() {
    assert_eq!(turn_left(&Direction::UP), Direction::LEFT);
    assert_eq!(turn_left(&Direction::LEFT), Direction::DOWN);
    assert_eq!(turn_left(&Direction::DOWN), Direction::RIGHT);
    assert_eq!(turn_left(&Direction::RIGHT), Direction::UP);
    for d in [Direction::UP, Direction::RIGHT, Direction::DOWN, Direction::LEFT] {
        assert_eq!(turn_right(&turn_left(&d)), d);
        assert_eq!(turn_left(&turn_right(&d)), d);
    }
    assert_eq!(turn_right(&Direction::UP), Direction::RIGHT);
}

#[test]
fn hull_coordinates() {
    assert_eq!(loc_to_array((0, 0)), Some((500, 500)));
    assert_eq!(loc_to_array((-500, 499)), Some((0, 999)));
    assert_eq!(loc_to_array((500, 0)), None);
    assert_eq!(loc_to_array((0, -501)), None);
}

#[test]
fn painting_robot_example() {
    let program = emitting(&[1, 0, 0, 0, 1, 0, 1, 0, 0, 1, 1, 0, 1, 0]);
    let (result, painter) = paint_hull(program, false, STEPS);
    assert_eq!(result, Ok(Status::Halted));
    assert_eq!(painter.painted_count(), 6);
    assert_eq!(painter.colour_at((0, 0)), Some(0));
    assert_eq!(painter.colour_at((-1, 0)), Some(0));
    assert_eq!(painter.colour_at((-1, -1)), Some(1));
    assert_eq!(painter.colour_at((0, -1)), Some(1));
    assert_eq!(painter.colour_at((1, 0)), Some(1));
    assert_eq!(painter.colour_at((1, 1)), Some(1));
    assert_eq!(painter.colour_at((0, 1)), Some(0));
    assert_eq!(painter.colour_at((500, 0)), None);
}

#[test]
fn painting_robot_reports_colours() {
    // read the colour, paint the opposite, turn right; four times round a square
    let mut program = Vec::new();
    for _ in 0..4 {
        program.extend_from_slice(&[3, 100, 108, 0, 100, 101, 4, 101, 104, 1]);
    }
    program.extend_from_slice(&[3, 100, 4, 100, 99]);
    let mut vm = VM::new(program.clone());
    let mut painter = Painter::new();
    painter.start_on_white();
    // the last output, a colour, is the colour of the first panel after repainting
    assert_eq!(vm.run(&mut painter, STEPS), Ok(Status::Halted));
    assert_eq!(painter.painted_count(), 4);
    assert_eq!(painter.colour_at((0, 0)), Some(0));
    assert_eq!(painter.colour_at((1, 0)), Some(1));
    assert_eq!(painter.colour_at((1, -1)), Some(1));
    assert_eq!(painter.colour_at((0, -1)), Some(1));
    // on a black start the first panel is painted white, read back and painted white again
    let (_, black_start) = paint_hull(program, false, STEPS);
    assert_eq!(black_start.colour_at((0, 0)), Some(1));
    assert_eq!(black_start.colour_at((1, 0)), Some(1));
    assert_eq!(black_start.painted_count(), 4);
}

#[test]
fn painting_robot_refuses_other_values() {
    let (result, painter) = paint_hull(emitting(&[2]), false, STEPS);
    assert_eq!(result, Err(VmError::OutputRefused));
    assert_eq!(painter.painted_count(), 0);
    let (result, _) = paint_hull(emitting(&[1, 7]), false, STEPS);
    assert_eq!(result, Err(VmError::OutputRefused));
    let mut painter = Painter::new();
    assert!(!painter.emit_output(-1));
    assert!(painter.emit_output(1));
    assert!(matches!(painter.next_input(), Input::Ready(1)));
}

#[test]
fn painting_robot_falls_off_the_hull() {
    // paint and walk up until the robot leaves the hull: 500 panels from (0, 0) to (0, 499)
    let program = vec![104, 1, 104, 0, 104, 1, 104, 1, 1105, 1, 0];
    let (result, painter) = paint_hull(program, false, STEPS);
    assert_eq!(result, Err(VmError::OutputRefused));
    assert!(painter.painted_count() > 0);
    let walk_up = vec![104, 0, 104, 0, 104, 0, 104, 1, 3, 50, 1105, 1, 0];
    let (result, _) = paint_hull(walk_up, false, STEPS);
    assert!(result == Err(VmError::OutputRefused) || result == Err(VmError::ExhaustedInput));
}

#[test]
fn arcade_draws_tiles() {
    assert_eq!(tile_char(0), Some(' '));
    assert_eq!(tile_char(1), Some('X'));
    assert_eq!(tile_char(2), Some('#'));
    assert_eq!(tile_char(3), Some('_'));
    assert_eq!(tile_char(4), Some('o'));
    assert_eq!(tile_char(5), None);
    assert_eq!(tile_char(-1), None);
    let (result, arcade) = play(emitting(&[1, 2, 3, 6, 5, 4, 3, 3, 2, 4, 3, 2, 9, 9]), 0, STEPS);
    assert_eq!(result, Ok(Status::Halted));
    assert_eq!(arcade.game.tile_at(1, 2), '_');
    assert_eq!(arcade.game.tile_at(6, 5), 'o');
    assert_eq!(arcade.game.tile_at(3, 3), '#');
    assert_eq!(arcade.game.tile_at(0, 0), ' ');
    assert_eq!(arcade.game.count_blocks(), 2);
    assert_eq!(arcade.game.ball, (6, 5));
    assert_eq!(arcade.game.ball_direction, (6, 5));
    assert_eq!(arcade.outputs, vec![9, 9]);
}

#[test]
fn arcade_tracks_the_ball_and_refuses_bad_tiles() {
    let mut game = Pong::new();
    assert!(game.paint(&vec![6, 5, 4]));
    assert!(game.paint(&vec![5, 6, 4]));
    assert_eq!(game.ball, (5, 6));
    assert_eq!(game.ball_direction, (-1, 1));
    assert!(!game.paint(&vec![37, 0, 1]));
    assert!(!game.paint(&vec![0, 26, 1]));
    assert!(!game.paint(&vec![-1, 0, 1]));
    assert!(!game.paint(&vec![0, 0, 5]));
    assert!(game.paint(&vec![36, 25, 1]));
    assert_eq!(game.tile_at(36, 25), 'X');
    assert_eq!(game.count_blocks(), 0);
    let (result, arcade) = play(emitting(&[-1, 0, 12345]), 0, STEPS);
    assert_eq!(result, Err(VmError::OutputRefused));
    assert_eq!(arcade.outputs, vec![-1, 0]);
    let mut arcade = Arcade::new(-1);
    assert!(matches!(arcade.next_input(), Input::Ready(-1)));
}

#[test]
fn tractor_hands_out_coordinates_in_turn() {
    let mut t = Tractor::new();
    t.current_x = 3;
    t.current_y = 7;
    assert_eq!(t.read(), 3);
    assert_eq!(t.next, NextCoord::Y);
    assert_eq!(t.read(), 7);
    assert_eq!(t.read(), 3);
}

#[test]
fn tractor_records_a_scan_row_by_row() {
    let mut t = Tractor::new();
    for i in 0..120 {
        assert!(t.write2(if i % 7 == 0 { 1 } else { 0 }));
    }
    assert_eq!(t.beam_grid.len(), 3);
    assert_eq!(t.beam_grid[0].len(), 50);
    assert_eq!(t.beam_grid[1].len(), 50);
    assert_eq!(t.beam_grid[2].len(), 20);
    assert_eq!((t.current_x, t.current_y), (20, 2));
    assert_eq!(t.count_affected(), Some(18));
    t.current_y = 9;
    assert!(!t.write2(1));
    assert_eq!(t.beam_grid[2].len(), 20);
}

#[test]
fn tractor_scans_with_a_program() {
    // reports 1 where x < y
    let program = vec![3, 20, 3, 21, 7, 20, 21, 22, 4, 22, 99];
    let t = scan(&program, 150, STEPS).expect("scan");
    assert_eq!(t.beam_grid.len(), 4);
    assert_eq!(t.count_affected(), Some(0 + 1 + 2));
    assert_eq!(t.beam_grid[2][..4], [1, 1, 0, 0]);
    assert_eq!(scan(&vec![3, 0, 77], 5, STEPS).err(), Some(VmError::DecodeError));
    assert_eq!(scan(&vec![77], 0, STEPS).map(|t| t.beam_grid.len()), Ok(1));
}

#[test]
fn tractor_edge_search() {
    let mut t = Tractor::new();
    // row 0: the beam covers column 0 only
    assert!(t.write(1));
    assert_eq!((t.state, t.direction, t.current_x, t.row_start),
        (TractorState::FindEnd, SearchDirection::UNKNOWN, 0, 0));
    assert!(t.write(1));
    assert_eq!((t.direction, t.current_x), (SearchDirection::RIGHT, 1));
    assert!(t.write(0));
    assert_eq!(t.beam_ranges, vec![(0, 0)]);
    assert_eq!((t.state, t.direction, t.current_x, t.current_y),
        (TractorState::FindStart, SearchDirection::UNKNOWN, 0, 1));
    // row 1: the beam covers columns 2 and 3
    assert!(t.write(0));
    assert_eq!((t.direction, t.current_x), (SearchDirection::RIGHT, 1));
    assert!(t.write(0));
    assert_eq!(t.current_x, 2);
    assert!(t.write(5));
    assert_eq!((t.state, t.row_start, t.current_x), (TractorState::FindEnd, 2, 0));
    // the search for the end starts at column 0 and cannot step left of it
    assert!(!t.write(0));
    assert_eq!((t.state, t.direction, t.current_x), (TractorState::FindEnd, SearchDirection::UNKNOWN, 0));
    assert!(t.write(1));
    assert_eq!((t.direction, t.current_x), (SearchDirection::RIGHT, 1));
    assert!(t.write(1));
    assert!(t.write(1));
    assert_eq!(t.current_x, 3);
    assert!(t.write(0));
    assert_eq!(t.beam_ranges, vec![(0, 0), (2, 2)]);
    assert_eq!((t.state, t.current_x, t.current_y), (TractorState::FindStart, 2, 2));
    assert!(!t.write(-1));
    let mut t = Tractor::new();
    assert!(!t.next_line());
    t.store_line(4);
    assert!(t.next_line());
    assert_eq!((t.current_x, t.current_y), (0, 1));
    assert!(t.found_row_start(3));
    assert_eq!((t.row_start, t.current_x), (3, 4));
}

#[test]
fn droid_follows_the_wall() {
    let mut game = Game::new();
    assert_eq!(game.location, (25, 25));
    assert_eq!(game.grid[25][25], OPEN);
    assert_eq!(game.grid[0][0], ' ');
    // before the first move nothing is drawn; the droid turns left of up
    assert!(matches!(game.next_input(), Input::Ready(3)));
    assert_eq!(game.direction, Heading::Left);
    // it hit a wall on the left: the wall is drawn, and it turns to go up
    assert!(game.emit_output(0));
    assert!(matches!(game.next_input(), Input::Ready(1)));
    assert_eq!(game.grid[25][24], WALL);
    assert_eq!(game.location, (25, 25));
    // it moved up: the cell is drawn, it stands there and turns left again
    assert!(game.emit_output(1));
    assert!(matches!(game.next_input(), Input::Ready(3)));
    assert_eq!(game.grid[24][25], OPEN);
    assert_eq!(game.location, (24, 25));
    // it found the oxygen system on the left
    assert!(game.emit_output(2));
    assert!(matches!(game.next_input(), Input::Ready(2)));
    assert_eq!(game.grid[24][24], OXYGEN);
    assert_eq!(game.location, (24, 24));
    assert_eq!(game.direction, Heading::Down);
    // an unknown status ends the run
    assert!(game.emit_output(3));
    assert!(matches!(game.next_input(), Input::Exhausted));
}

#[test]
fn droid_commands() {
    let mut game = Game::new();
    game.last_result = 0;
    game.direction = Heading::Right;
    assert_eq!(game.follow_left_input(), 2);
    assert_eq!(game.follow_left_input(), 3);
    assert_eq!(game.follow_left_input(), 1);
    assert_eq!(game.follow_left_input(), 4);
    game.last_result = 1;
    assert_eq!(game.follow_left_input(), 1);
    assert_eq!(game.follow_left_input(), 3);
    assert_eq!(game.follow_left_input(), 2);
    assert_eq!(game.follow_left_input(), 4);
    assert_eq!(game.manual_input("e\n"), Some(1));
    assert_eq!(game.direction, Heading::Up);
    assert_eq!(game.manual_input("d\n"), Some(2));
    assert_eq!(game.manual_input("s\n"), Some(3));
    assert_eq!(game.manual_input("f\n"), Some(4));
    assert_eq!(game.direction, Heading::Right);
    assert_eq!(game.manual_input("x\n"), None);
    assert_eq!(game.manual_input("e"), None);
    assert_eq!(game.manual_input(""), None);
    assert_eq!(game.direction, Heading::Right);
    assert_eq!(Game::adjacent(&(3, 4)), vec![(4, 4), (2, 4), (3, 5), (3, 3)]);
    game.mode = GameMode::Manual;
    assert!(matches!(game.next_input(), Input::Pending));
    game.mode = GameMode::FollowLeft;
    game.location = (25, 25);
    game.direction = Heading::Down;
    assert!(matches!(game.next_input(), Input::Pending));
    assert!(!game.set(50, 0, 1));
    assert!(!game.set(0, 50, 1));
    assert!(!game.set(0, 0, 4));
    assert!(game.set(49, 0, 0));
    assert_eq!(game.grid[0][49], WALL);
}

#[test]
fn oxygen_fills_the_example_in_four_minutes() {
    let picture = [" ##   ", "#..## ", "#.#..#", "#.O.# ", " ###  "];
    let mut game = Game::new();
    game.grid[25][25] = ' ';
    for (y, row) in picture.iter().enumerate() {
        for (x, c) in row.chars().enumerate() {
            match c {
                '#' => assert!(game.set(x + 10, y + 10, 0)),
                '.' => assert!(game.set(x + 10, y + 10, 1)),
                'O' => assert!(game.set(x + 10, y + 10, 2)),
                _ => {}
            }
        }
    }
    assert_eq!(game.find_oxygen(), Some((12, 13)));
    let mut short = Game::new();
    short.grid = game.grid.clone();
    assert_eq!(short.release_the_oxygen(3), None);
    assert_eq!(game.release_the_oxygen(4), Some(4));
    for (y, row) in picture.iter().enumerate() {
        for (x, c) in row.chars().enumerate() {
            let expected = match c {
                '#' => WALL,
                '.' | 'O' => OXYGEN,
                _ => ' ',
            };
            assert_eq!(game.grid[y + 10][x + 10], expected);
        }
    }
    assert_eq!(game.release_the_oxygen(0), Some(0));
    assert_eq!(Game::new().release_the_oxygen(10), None);
}

#[test]
fn files_are_queues() {
    let mut os = OS::new();
    assert_eq!(os.new_file(), 0);
    assert_eq!(os.new_file(), 1);
    assert!(os.write(1, 10));
    assert!(os.write(1, 20));
    assert!(!os.write(2, 30));
    assert_eq!(os.peek(1), Some(10));
    assert_eq!(os.read(1), Some(10));
    assert_eq!(os.read(1), Some(20));
    assert_eq!(os.read(1), None);
    assert_eq!(os.read(0), None);
    assert_eq!(os.read(2), None);
    assert_eq!(os.peek(0), None);
    let mut channel = Channel { os, input_file: 0, output_file: 1 };
    assert!(matches!(channel.next_input(), Input::Pending));
    assert!(channel.emit_output(5));
    channel.input_file = 1;
    assert!(matches!(channel.next_input(), Input::Ready(5)));
    channel.input_file = 9;
    channel.output_file = 9;
    assert!(matches!(channel.next_input(), Input::Exhausted));
    assert!(!channel.emit_output(5));
}

#[test]
fn amplifier_chain_examples() {
    let program = vec![3, 15, 3, 16, 1002, 16, 10, 16, 1, 16, 15, 15, 4, 15, 99, 0, 0];
    assert_eq!(chain(&program, &vec![4, 3, 2, 1, 0], STEPS), Some(43210));
    assert_eq!(chain(&program, &vec![0, 1, 2, 3, 4], STEPS), Some(1234));
    assert_eq!(best_chain(&program, &vec![0, 1, 2, 3, 4], STEPS), Some(43210));
    let program = vec![
        3, 23, 3, 24, 1002, 24, 10, 24, 1002, 23, -1, 23, 101, 5, 23, 23, 1, 24, 23, 23, 4, 23, 99,
        0, 0,
    ];
    assert_eq!(chain(&program, &vec![0, 1, 2, 3, 4], STEPS), Some(54321));
    assert_eq!(best_chain(&program, &vec![0, 1, 2, 3, 4], STEPS), Some(54321));
    let program = vec![
        3, 31, 3, 32, 1002, 32, 10, 32, 1001, 31, -2, 31, 1007, 31, 0, 33, 1002, 33, 7, 33, 1, 33,
        31, 31, 1, 32, 31, 31, 4, 31, 99, 0, 0, 0,
    ];
    assert_eq!(chain(&program, &vec![1, 0, 4, 3, 2], STEPS), Some(65210));
    assert_eq!(best_chain(&program, &vec![0, 1, 2, 3, 4], STEPS), Some(65210));
    assert_eq!(chain(&vec![77], &vec![0, 1], STEPS), None);
    assert_eq!(chain(&vec![99], &vec![0, 1], STEPS), None);
    assert_eq!(chain(&program, &vec![], STEPS), None);
    assert_eq!(best_chain(&vec![99], &vec![0, 1], STEPS), None);
    // the signal is never below 0
    assert_eq!(best_chain(&vec![3, 0, 3, 0, 104, -5, 99], &vec![1, 2, 3], STEPS), Some(0));
}

#[test]
fn amplifier_feedback_examples() {
    let program = vec![
        3, 26, 1001, 26, -4, 26, 3, 27, 1002, 27, 2, 27, 1, 27, 26, 27, 4, 27, 1001, 28, -1, 28,
        1005, 28, 6, 99, 0, 0, 5,
    ];
    assert_eq!(feedback(&program, &vec![9, 8, 7, 6, 5], STEPS, 100), Some(139629729));
    assert_eq!(feedback(&program, &vec![9, 8, 7, 6, 5], STEPS, 2), None);
    assert_eq!(best_feedback(&program, &vec![5, 6, 7, 8, 9], STEPS, 100), Some(139629729));
    let program = vec![
        3, 52, 1001, 52, -5, 52, 3, 53, 1, 52, 56, 54, 1007, 54, 5, 55, 1005, 55, 26, 1001, 54, -5,
        54, 1105, 1, 12, 1, 53, 54, 53, 1008, 54, 0, 55, 1001, 55, 1, 55, 2, 53, 55, 53, 4, 53,
        1001, 56, -1, 56, 1005, 56, 6, 99, 0, 0, 0, 0, 10,
    ];
    assert_eq!(feedback(&program, &vec![9, 7, 8, 5, 6], STEPS, 100), Some(18216));
    assert_eq!(best_feedback(&program, &vec![5, 6, 7, 8, 9], STEPS, 100), Some(18216));
    assert_eq!(feedback(&vec![77], &vec![5, 6], STEPS, 100), None);
}

#[test]
fn rounds_by_hand() {
    let program = vec![3, 15, 3, 16, 1002, 16, 10, 16, 1, 16, 15, 15, 4, 15, 99, 0, 0];
    let (os, mut vms) = wire(&program, &vec![4, 3], false);
    assert_eq!(vms.len(), 2);
    assert_eq!(os.peek(0), Some(4));
    assert_eq!(os.peek(1), Some(3));
    assert_eq!(os.peek(2), None);
    assert!(!all_stopped(&vms));
    let os = run_round(&mut vms, os, false, STEPS).ok().expect("round");
    assert!(all_stopped(&vms));
    assert_eq!(os.peek(2), Some(43));
    assert_eq!(os.peek(0), None);
    assert_eq!(os.peek(1), None);
    let (os, _) = wire(&program, &vec![4, 3], true);
    assert_eq!(os.peek(0), None);
    assert_eq!(os.peek(1), Some(3));
    assert_eq!(os.peek(2), Some(4));
    let mut vm = VM::new(vec![99]);
    assert_eq!(vm.run(&mut FixedInput::new(0), 1), Ok(Status::Halted));
}

#[test]
fn best_signal_of_given_orders() {
    let program = vec![3, 15, 3, 16, 1002, 16, 10, 16, 1, 16, 15, 15, 4, 15, 99, 0, 0];
    let orders = vec![vec![0, 1, 2, 3, 4], vec![4, 3, 2, 1, 0], vec![1, 0, 2, 3, 4]];
    assert_eq!(best_chain_of(&program, &orders, STEPS), Some(43210));
    assert_eq!(best_chain_of(&program, &orders[..1].to_vec(), STEPS), Some(1234));
    assert_eq!(best_chain_of(&program, &vec![], STEPS), Some(0));
    assert_eq!(best_chain_of(&program, &vec![vec![]], STEPS), None);
    assert_eq!(best_chain_of(&vec![77], &orders, STEPS), None);
    let looped = vec![
        3, 26, 1001, 26, -4, 26, 3, 27, 1002, 27, 2, 27, 1, 27, 26, 27, 4, 27, 1001, 28, -1, 28,
        1005, 28, 6, 99, 0, 0, 5,
    ];
    let orders = vec![vec![5, 6, 7, 8, 9], vec![9, 8, 7, 6, 5]];
    assert_eq!(best_feedback_of(&looped, &orders, STEPS, 100), Some(139629729));
    assert_eq!(best_feedback_of(&looped, &orders, STEPS, 1), None);
    assert_eq!(best_feedback_of(&looped, &vec![], STEPS, 100), Some(0));
}
