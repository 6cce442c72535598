use intcode::puzzles::fuel;
use intcode::puzzles::image;
use intcode::puzzles::moons::{
    advance, axis_step, energy, find_repeated_state, find_repeated_state_u, get_axis_cycle,
    run_n_steps, run_step, MoonAxis, MoonLocation, MoonState, MoonVelocity, Universe,
};
use intcode::puzzles::numbers::{greatest_common_divisor, least_common_multiple};
use intcode::puzzles::signal::{
    apply_n_phases, apply_one_phase, apply_phase, apply_phases, dot, identity, matrix_mul,
    pattern, phase_matrix, vector_mul,
};

const MANY: usize = 1_000_000;

#[test]
fn test_energy() {
    let locations = vec![
        MoonLocation { x: 2, y: 1, z: -3 },
        MoonLocation { x: 1, y: -8, z: 0 },
        MoonLocation { x: 3, y: -6, z: 1 },
        MoonLocation { x: 2, y: 0, z: 4 },
    ];
    let velocities = vec![
        MoonVelocity { v_x: -3, v_y: -2, v_z: 1 },
        MoonVelocity { v_x: -1, v_y: 1, v_z: 3 },
        MoonVelocity { v_x: 3, v_y: 2, v_z: -3 },
        MoonVelocity { v_x: 1, v_y: -1, v_z: -1 },
    ];
    assert_eq!(energy(&locations, &velocities), Some(179));
}

#[test]
fn test_find_state_repeat_0() {
    let locations = vec![
        MoonLocation { x: 0, y: 0, z: 0 },
        MoonLocation { x: 0, y: 0, z: 0 },
        MoonLocation { x: 0, y: 0, z: 0 },
        MoonLocation { x: 0, y: 0, z: 0 },
    ];
    let result = find_repeated_state(locations, MANY);
    assert_eq!(result, Some(1));
}

#[test]
fn test_example_steps() {
    let mut locations = vec![
        MoonLocation { x: -1, y: 0, z: 2 },
        MoonLocation { x: 2, y: -10, z: -7 },
        MoonLocation { x: 4, y: -8, z: 8 },
        MoonLocation { x: 3, y: 5, z: -1 },
    ];
    let mut velocities =
        vec![MoonVelocity::new(), MoonVelocity::new(), MoonVelocity::new(), MoonVelocity::new()];
    assert!(run_step(&mut locations, &mut velocities));
    assert_eq!(
        locations,
        vec![
            MoonLocation { x: 2, y: -1, z: 1 },
            MoonLocation { x: 3, y: -7, z: -4 },
            MoonLocation { x: 1, y: -7, z: 5 },
            MoonLocation { x: 2, y: 2, z: 0 },
        ]
    );
    assert_eq!(
        velocities,
        vec![
            MoonVelocity { v_x: 3, v_y: -1, v_z: -1 },
            MoonVelocity { v_x: 1, v_y: 3, v_z: 3 },
            MoonVelocity { v_x: -3, v_y: 1, v_z: -3 },
            MoonVelocity { v_x: -1, v_y: -3, v_z: 1 },
        ]
    );
}

#[test]
fn test_find_state_repeat() {
    let universe = Universe {
        moons: [
            MoonState { location: MoonLocation { x: -8, y: -10, z: 0 }, velocity: MoonVelocity::new() },
            MoonState { location: MoonLocation { x: 5, y: 5, z: 10 }, velocity: MoonVelocity::new() },
            MoonState { location: MoonLocation { x: 2, y: -7, z: 3 }, velocity: MoonVelocity::new() },
            MoonState { location: MoonLocation { x: 9, y: -8, z: -3 }, velocity: MoonVelocity::new() },
        ],
    };
    let result = find_repeated_state_u(universe, MANY);
    assert_eq!(result, Some(4686774924));
}

#[test]
fn first_example_repeats_after_2772_steps() {
    let locations = vec![
        MoonLocation { x: -1, y: 0, z: 2 },
        MoonLocation { x: 2, y: -10, z: -7 },
        MoonLocation { x: 4, y: -8, z: 8 },
        MoonLocation { x: 3, y: 5, z: -1 },
    ];
    assert_eq!(find_repeated_state(locations.clone(), MANY), Some(2772));
    assert_eq!(find_repeated_state(locations.clone(), 10), None);
    let mut l = locations.clone();
    let mut v = vec![MoonVelocity::new(); 4];
    assert!(run_n_steps(10, &mut l, &mut v));
    assert_eq!(energy(&l, &v), Some(179));
    assert_eq!(l[0], MoonLocation { x: 2, y: 1, z: -3 });
    assert_eq!(v[3], MoonVelocity { v_x: 1, v_y: -1, v_z: -1 });
    assert!(run_n_steps(2762, &mut l, &mut v));
    assert_eq!(l, locations);
    assert_eq!(v, vec![MoonVelocity::new(); 4]);
}

#[test]
fn axes_move_on_their_own() {
    let universe = Universe {
        moons: [
            MoonState { location: MoonLocation { x: -1, y: 0, z: 2 }, velocity: MoonVelocity::new() },
            MoonState { location: MoonLocation { x: 2, y: -10, z: -7 }, velocity: MoonVelocity::new() },
            MoonState { location: MoonLocation { x: 4, y: -8, z: 8 }, velocity: MoonVelocity::new() },
            MoonState { location: MoonLocation { x: 3, y: 5, z: -1 }, velocity: MoonVelocity::new() },
        ],
    };
    let axes = universe.to_axes();
    assert_eq!(axes[0][1], MoonAxis { pos: 2, vel: 0 });
    assert_eq!(axes[1][1], MoonAxis { pos: -10, vel: 0 });
    assert_eq!(axes[2][3], MoonAxis { pos: -1, vel: 0 });
    assert_eq!(get_axis_cycle(axes[0], MANY), Some(18));
    assert_eq!(get_axis_cycle(axes[1], MANY), Some(28));
    assert_eq!(get_axis_cycle(axes[2], MANY), Some(44));
    assert_eq!(get_axis_cycle(axes[2], 43), None);
    assert_eq!(
        axis_step(&axes[0].to_vec()),
        Some(vec![
            MoonAxis { pos: 2, vel: 3 },
            MoonAxis { pos: 3, vel: 1 },
            MoonAxis { pos: 1, vel: -3 },
            MoonAxis { pos: 2, vel: -1 },
        ])
    );
}

#[test]
fn steps_that_leave_sixteen_bits_are_refused() {
    assert_eq!(advance(&vec![0, 5], &vec![i16::MAX, 0]), None);
    assert_eq!(advance(&vec![i16::MAX, 0], &vec![2, 0]), None);
    assert_eq!(advance(&vec![i16::MAX, 0], &vec![1, 0]), Some((vec![i16::MAX, 1], vec![0, 1])));
    assert_eq!(advance(&vec![0, 5], &vec![0, 0, 9]), Some((vec![1, 4], vec![1, -1])));
    assert_eq!(advance(&vec![], &vec![]), Some((vec![], vec![])));
    let mut l = vec![MoonLocation { x: i16::MAX, y: 0, z: 0 }, MoonLocation { x: 0, y: 0, z: 0 }];
    let mut v = vec![MoonVelocity { v_x: 2, v_y: 0, v_z: 0 }, MoonVelocity::new()];
    assert!(!run_step(&mut l, &mut v));
    assert_eq!(l[0].x, i16::MAX);
    assert_eq!(v[0].v_x, 2);
    assert!(!run_n_steps(3, &mut l, &mut v));
    let loud = vec![MoonLocation { x: i16::MIN, y: i16::MIN, z: i16::MIN }];
    let fast = vec![MoonVelocity { v_x: i16::MIN, v_y: i16::MIN, v_z: i16::MIN }];
    assert_eq!(energy(&loud, &fast), Some(98304 * 98304));
    assert_eq!(energy(&loud, &vec![]), Some(0));
}

#[test]
fn common_divisors_and_multiples() {
    assert_eq!(greatest_common_divisor(6, 8), 2);
    assert_eq!(greatest_common_divisor(7, 3), 1);
    assert_eq!(greatest_common_divisor(0, 9), 9);
    assert_eq!(greatest_common_divisor(9, 0), 9);
    assert_eq!(greatest_common_divisor(0, 0), 0);
    assert_eq!(greatest_common_divisor(48, 36), 12);
    assert_eq!(least_common_multiple(7, 3), Some(21));
    assert_eq!(least_common_multiple(2, 4), Some(4));
    assert_eq!(least_common_multiple(0, 0), Some(0));
    assert_eq!(least_common_multiple(0, 5), Some(0));
    assert_eq!(least_common_multiple(18, 28), Some(252));
    assert_eq!(least_common_multiple(u64::MAX, 2), None);
    assert_eq!(least_common_multiple(u64::MAX, u64::MAX), Some(u64::MAX));
    assert_eq!(least_common_multiple(1 << 40, 3 << 39), Some(3 << 40));
}

#[test]
fn test_pattern3() {
    assert_eq!(pattern(11, 3), vec![0, 0, 1, 1, 1, 0, 0, 0, -1, -1, -1]);
}

#[test]
fn test_example_phases() {
    let input = vec![1i64, 2, 3, 4, 5, 6, 7, 8];
    assert_eq!(apply_phases(&input, 1), Some(vec![4i64, 8, 2, 2, 6, 1, 5, 8]));
}

#[test]
fn test_matrix_mul_1() {
    let m1 = vec![vec![1i64, 2], vec![3, 4]];
    let m2 = vec![vec![5i64, 6], vec![7, 8]];
    assert_eq!(matrix_mul(&m1, &m2), Some(vec![vec![19i64, 22], vec![43, 50]]));
}

#[test]
fn test_vec_mul_1() {
    let v = vec![1i64, 2];
    let m = vec![vec![5i64, 6], vec![7, 8]];
    assert_eq!(vector_mul(&v, &m), Some(vec![17i64, 23]));
}

#[test]
fn test_self_1() {
    let v = vec![3i64, -1, 4];
    assert_eq!(vector_mul(&v, &identity(3)), Some(v));
}

#[test]
fn test_identity() {
    assert_eq!(identity(1), vec![vec![1]]);
    assert_eq!(identity(2), vec![vec![1, 0], vec![0, 1]]);
}

#[test]
fn more_phases() {
    let input = vec![1i64, 2, 3, 4, 5, 6, 7, 8];
    assert_eq!(apply_phases(&input, 0), Some(input.clone()));
    assert_eq!(apply_phases(&input, 2), Some(vec![3, 4, 0, 4, 0, 4, 3, 8]));
    assert_eq!(apply_phases(&input, 3), Some(vec![0, 3, 4, 1, 5, 5, 1, 8]));
    assert_eq!(apply_phases(&input, 4), Some(vec![0, 1, 0, 2, 9, 4, 9, 8]));
    assert_eq!(apply_one_phase(&input), Some(vec![4, 8, 2, 2, 6, 1, 5, 8]));
    assert_eq!(apply_phase(&input, 1), Some(1 - 3 + 5 - 7));
    assert_eq!(apply_phase(&input, 2), Some(2 + 3 - 6 - 7));
    assert_eq!(apply_phase(&input, 8), Some(8));
    let digits: Vec<i64> =
        "80871224585914546619083218645595".bytes().map(|b| (b - b'0') as i64).collect();
    let after = apply_phases(&digits, 100).expect("hundred phases");
    assert_eq!(after[..8], [2, 4, 1, 7, 6, 1, 7, 6]);
    assert_eq!(pattern(4, 1), vec![1, 0, -1, 0]);
    assert_eq!(pattern(0, 5), vec![]);
    assert_eq!(identity(0), Vec::<Vec<i64>>::new());
}

#[test]
fn sums_that_leave_sixty_four_bits_are_refused() {
    assert_eq!(dot(&vec![i64::MAX, 1], &vec![1, 1], 2), None);
    assert_eq!(dot(&vec![i64::MAX, 1], &vec![1, 1], 1), Some(i64::MAX));
    assert_eq!(dot(&vec![i64::MAX, 1], &vec![2, 1], 1), None);
    assert_eq!(dot(&vec![4, 5], &vec![6, 7], 0), Some(0));
    assert_eq!(vector_mul(&vec![i64::MAX, 1], &vec![vec![1, 1], vec![0, 0]]), None);
    assert_eq!(vector_mul(&vec![2, 3], &vec![vec![5], vec![1, 1, 1]]), Some(vec![10, 5]));
    assert_eq!(matrix_mul(&vec![vec![i64::MAX]], &vec![vec![2]]), None);
    assert_eq!(apply_phase(&vec![i64::MAX, 0, i64::MIN], 1), None);
    assert_eq!(apply_one_phase(&vec![i64::MIN]), None);
    assert_eq!(apply_phases(&vec![i64::MIN], 0), Some(vec![i64::MIN]));
    assert_eq!(apply_phases(&vec![i64::MIN], 1), None);
    assert_eq!(apply_one_phase(&vec![-17]), Some(vec![7]));
}

#[test]
fn fuel_for_modules() {
    assert_eq!(fuel::fuel_required(12), 2);
    assert_eq!(fuel::fuel_required(14), 2);
    assert_eq!(fuel::fuel_required(1969), 654);
    assert_eq!(fuel::fuel_required(100756), 33583);
    assert_eq!(fuel::fuel_required(6), 0);
    assert_eq!(fuel::fuel_required_recursive(14), 2);
    assert_eq!(fuel::fuel_required_recursive(1969), 966);
    assert_eq!(fuel::fuel_required_recursive(100756), 50346);
    assert_eq!(fuel::fuel_required_recursive(8), 0);
    assert_eq!(fuel::fuel_required_recursive(9), 1);
    assert_eq!(fuel::fuel_required_recursive(0), 0);
    assert_eq!(fuel::part1(&vec![12, 14, 1969, 100756]), Some(2 + 2 + 654 + 33583));
    assert_eq!(fuel::part2(&vec![14, 1969, 100756]), Some(2 + 966 + 50346));
    assert_eq!(fuel::part1(&vec![]), Some(0));
    assert_eq!(fuel::part1(&vec![u32::MAX, u32::MAX, u32::MAX]), Some(4294967289));
    assert_eq!(fuel::part1(&vec![u32::MAX; 4]), None);
    assert_eq!(fuel::part2(&vec![u32::MAX; 3]), None);
}

#[test]
fn image_layers() {
    let mut text = String::new();
    // three layers: the first all transparent but for a black pixel, the second all white
    text.push('0');
    text.push_str(&"2".repeat(149));
    text.push_str(&"1".repeat(150));
    text.push_str(&"0".repeat(150));
    let layers = image::parse_input(text.as_bytes()).expect("three layers");
    assert_eq!(layers.len(), 3);
    assert_eq!(layers[0][0], 0);
    assert_eq!(layers[0][149], 2);
    assert_eq!(image::count_ns(&layers[0], 2), 149);
    assert_eq!(image::count_ns(&layers[0], 0), 1);
    assert_eq!(image::count_ns(&layers[1], 1), 150);
    assert_eq!(image::count_ns(&layers[2], 1), 0);
    // the second layer has no zeros: 150 ones times no twos
    assert_eq!(image::part1(&layers), Some(0));
    let picture = image::part2(&layers).expect("picture");
    assert_eq!(picture[0], b' ');
    assert_eq!(picture[1..], vec![b'@'; 149][..]);
    assert_eq!(image::part1(&vec![]), None);
    assert_eq!(image::part2(&vec![]), Some(vec![b'-'; 150]));
    assert_eq!(image::parse_input(b"012"), None);
    assert_eq!(image::parse_input(&[b'/'; 150]), None);
    assert_eq!(image::parse_input(b""), Some(vec![]));
    let strange = image::parse_input(&[b'7'; 150]).expect("digits");
    assert_eq!(image::part2(&strange), None);
    let mut tie = "1".repeat(75);
    tie.push_str(&"2".repeat(75));
    tie.push_str(&"1".repeat(150));
    let layers = image::parse_input(tie.as_bytes()).expect("two layers");
    // both have no zeros; the first wins
    assert_eq!(image::part1(&layers), Some(75 * 75));
}

#[test]
fn phases_by_matrix_powers() {
    let input = vec![1i64, 2, 3, 4, 5, 6, 7, 8];
    assert_eq!(apply_n_phases(&input, 0), Some(input.clone()));
    let once = vec![-4i64, -8, 12, 22, 26, 21, 15, 8];
    assert_eq!(apply_n_phases(&input, 1), Some(once.clone()));
    let raw = |v: &Vec<i64>| -> Vec<i64> {
        (1..=v.len()).map(|i| apply_phase(v, i).expect("a sum")).collect()
    };
    assert_eq!(raw(&input), once);
    let mut expected = input.clone();
    for count in 1..6 {
        expected = raw(&expected);
        assert_eq!(apply_n_phases(&input, count), Some(expected.clone()));
    }
    assert_eq!(apply_n_phases(&vec![], 3), None);
    assert_eq!(apply_n_phases(&vec![i64::MAX, i64::MAX], 1), Some(vec![i64::MAX, i64::MAX]));
    assert_eq!(apply_n_phases(&vec![0, i64::MAX, i64::MAX], 1), None);
    assert_eq!(apply_n_phases(&vec![5], 1000), Some(vec![5]));
    let m = phase_matrix(3);
    assert_eq!(m, vec![vec![1, 0, -1], vec![0, 1, 1], vec![0, 0, 1]]);
    assert_eq!(phase_matrix(0), Vec::<Vec<i64>>::new());
}
