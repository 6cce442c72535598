use intcode::puzzles::asteroids::{count_visible, part1, part2, rank_of, Point, Target};
use intcode::puzzles::order::compare;
use std::cmp::Ordering;
use std::f64::consts::PI;

fn chart(input: &[&str]) -> Vec<Point> {
    let mut all_points = vec![];
    for (line_no, line) in input.iter().enumerate() {
        for (char_no, c) in line.chars().enumerate() {
            if c == '#' {
                all_points.push(Point { x: char_no, y: line_no })
            }
        }
    }
    all_points
}

fn hashable_angle(theta: f64) -> usize {
    (theta * 10000.0).round() as usize
}

fn deltas_to_angle(delta_x: f64, delta_y: f64) -> f64 {
    let theta = (delta_x / delta_y).atan();
    if delta_y < 0.0 {
        theta + PI
    } else if delta_x < 0.0 {
        theta + 2.0 * PI
    } else {
        theta
    }
}

fn sweep(points: &Vec<Point>, laser: Point) -> Vec<Target> {
    let angles: Vec<usize> = points
        .iter()
        .map(|p| {
            if *p == laser {
                0
            } else {
                hashable_angle(deltas_to_angle(
                    p.x as f64 - laser.x as f64,
                    laser.y as f64 - p.y as f64,
                ))
            }
        })
        .collect();
    let laps: Vec<usize> =
        (0..points.len()).map(|i| hashable_angle((i * 2) as f64 * PI)).collect();
    part2(points, laser, &angles, &laps).expect("targets")
}

const BIG: [&str; 20] = [
    ".#..##.###...#######",
    "##.############..##.",
    ".#.######.########.#",
    ".###.#######.####.#.",
    "#####.##.#.##.###.##",
    "..#####..#.#########",
    "####################",
    "#.####....###.#.#.##",
    "##.#################",
    "#####.##.###..####..",
    "..######..##.#######",
    "####.##.####...##..#",
    ".#####..#.######.###",
    "##...#.##########...",
    "#.##########.#######",
    ".####.#.###.###.#.##",
    "....##.##.###..#####",
    ".#.#.###########.###",
    "#.#.#.#####.####.###",
    "###.##.####.##.#..##",
];

#[test]
fn asteroids_test_example1() {
    let input = vec![
        ".#....#####...#..",
        "##...##.#####..##",
        "##...#...#.#####.",
        "..#.....#...###..",
        "..#.#.....#....##",
    ];
    let all_points = chart(&input);
    let laser = Point { x: 8, y: 3 };
    let p = sweep(&all_points, laser);
    assert_eq!(p.len(), all_points.len() - 1);
    assert_eq!(p[1 - 1].point, Point { x: 8, y: 1 });
    assert_eq!(p[2 - 1].point, Point { x: 9, y: 0 });
    assert_eq!(p[3 - 1].point, Point { x: 9, y: 1 });
    assert_eq!(p[4 - 1].point, Point { x: 10, y: 0 });
    assert_eq!(p[5 - 1].point, Point { x: 9, y: 2 });
    assert_eq!(p[6 - 1].point, Point { x: 11, y: 1 });
    assert_eq!(p[7 - 1].point, Point { x: 12, y: 1 });
    assert_eq!(p[8 - 1].point, Point { x: 11, y: 2 });
    assert_eq!(p[9 - 1].point, Point { x: 15, y: 1 });
    assert_eq!(p[8 + 1].point, Point { x: 12, y: 2 });
    assert_eq!(p[8 + 2].point, Point { x: 13, y: 2 });
    assert_eq!(p[8 + 3].point, Point { x: 14, y: 2 });
    assert_eq!(p[8 + 4].point, Point { x: 15, y: 2 });
    assert_eq!(p[8 + 5].point, Point { x: 12, y: 3 });
    assert_eq!(p[8 + 6].point, Point { x: 16, y: 4 });
    assert_eq!(p[8 + 7].point, Point { x: 15, y: 4 });
    assert_eq!(p[8 + 8].point, Point { x: 10, y: 4 });
    assert_eq!(p[8 + 9].point, Point { x: 4, y: 4 });
    assert_eq!(p[17 + 1].point, Point { x: 2, y: 4 });
    assert_eq!(p[17 + 2].point, Point { x: 2, y: 3 });
    assert_eq!(p[17 + 3].point, Point { x: 0, y: 2 });
    assert_eq!(p[17 + 4].point, Point { x: 1, y: 2 });
    assert_eq!(p[17 + 5].point, Point { x: 0, y: 1 });
    assert_eq!(p[17 + 6].point, Point { x: 1, y: 1 });
    assert_eq!(p[17 + 7].point, Point { x: 5, y: 2 });
    assert_eq!(p[17 + 8].point, Point { x: 1, y: 0 });
    assert_eq!(p[17 + 9].point, Point { x: 5, y: 1 });
    assert_eq!(p[26 + 1].point, Point { x: 6, y: 1 });
    assert_eq!(p[26 + 2].point, Point { x: 6, y: 0 });
    assert_eq!(p[26 + 3].point, Point { x: 7, y: 0 });
    assert_eq!(p[26 + 4].point, Point { x: 8, y: 0 });
    assert_eq!(p[26 + 5].point, Point { x: 10, y: 1 });
    assert_eq!(p[26 + 6].point, Point { x: 14, y: 0 });
    assert_eq!(p[26 + 7].point, Point { x: 16, y: 1 });
    assert_eq!(p[26 + 8].point, Point { x: 13, y: 3 });
    assert_eq!(p[26 + 9].point, Point { x: 14, y: 3 });
}

#[test]
fn big_test() {
    let all_points = chart(&BIG);
    let laser = Point { x: 11, y: 13 };
    let adjusted_asteroids = sweep(&all_points, laser);
    assert_eq!(adjusted_asteroids[0].point, Point { x: 11, y: 12 });
    assert_eq!(adjusted_asteroids[1].point, Point { x: 12, y: 1 });
    assert_eq!(adjusted_asteroids[2].point, Point { x: 12, y: 2 });
    assert_eq!(adjusted_asteroids[9].point, Point { x: 12, y: 8 });
    assert_eq!(adjusted_asteroids[19].point, Point { x: 16, y: 0 });
    assert_eq!(adjusted_asteroids[49].point, Point { x: 16, y: 9 });
    assert_eq!(adjusted_asteroids[99].point, Point { x: 10, y: 16 });
    assert_eq!(adjusted_asteroids[198].point, Point { x: 9, y: 6 });
    assert_eq!(adjusted_asteroids[199].point, Point { x: 8, y: 2 });
    assert_eq!(adjusted_asteroids[200].point, Point { x: 10, y: 9 });
}

#[test]
fn best_stations() {
    let small = chart(&[".#..#", ".....", "#####", "....#", "...##"]);
    assert_eq!(part1(&small), (Point { x: 3, y: 4 }, 8));
    assert_eq!(count_visible(&small, &Point { x: 1, y: 0 }), 7);
    assert_eq!(count_visible(&small, &Point { x: 4, y: 0 }), 7);
    assert_eq!(count_visible(&small, &Point { x: 0, y: 2 }), 6);
    assert_eq!(count_visible(&small, &Point { x: 4, y: 2 }), 5);
    let big = chart(&BIG);
    assert_eq!(part1(&big), (Point { x: 11, y: 13 }, 210));
    assert_eq!(part1(&vec![]), (Point { x: 0, y: 0 }, 0));
    assert_eq!(part1(&vec![Point { x: 5, y: 5 }]), (Point { x: 0, y: 0 }, 0));
    // three in a row: the middle one sees two, the ends see one
    let row = vec![Point { x: 0, y: 0 }, Point { x: 2, y: 4 }, Point { x: 4, y: 8 }];
    assert_eq!(count_visible(&row, &row[0]), 1);
    assert_eq!(part1(&row), (Point { x: 2, y: 4 }, 2));
    let far = vec![Point { x: 0, y: 0 }, Point { x: 0x7fff_ffff, y: 0x7fff_ffff }, Point { x: 1, y: 1 }];
    assert_eq!(count_visible(&far, &far[0]), 1);
    assert_eq!(count_visible(&far, &far[2]), 2);
}

#[test]
fn distances_and_ranks() {
    let a = Point { x: 1, y: 2 };
    let b = Point { x: 4, y: 6 };
    let c = Point { x: 1, y: 7 };
    assert_eq!(a.distance(&b), 25);
    assert_eq!(b.distance(&a), 25);
    assert_eq!(a.distance(&a), 0);
    assert_eq!(Point { x: 0, y: 0 }.distance(&Point { x: 0x7fff_ffff, y: 0x7fff_ffff }),
        2 * 0x7fff_ffff_i64 * 0x7fff_ffff_i64);
    assert_eq!(b.cmp_distance(&c, &a), Ordering::Equal);
    assert_eq!(a.cmp_distance(&c, &b), Ordering::Greater);
    assert_eq!(c.cmp_distance(&a, &b), Ordering::Less);
    let points = vec![c, a, Point { x: 1, y: 5 }, b, Point { x: 1, y: 4 }];
    let laser = Point { x: 1, y: 4 };
    let angles = vec![7, 3, 7, 9, 7];
    assert_eq!(rank_of(&points, &laser, &angles, 0), 1);
    assert_eq!(rank_of(&points, &laser, &angles, 2), 0);
    assert_eq!(rank_of(&points, &laser, &angles, 1), 0);
    let targets = part2(&points, laser, &angles, &vec![0, 100]).expect("two laps");
    let order: Vec<(usize, Point)> = targets.iter().map(|t| (t.key, t.point)).collect();
    assert_eq!(order, vec![(3, a), (7, Point { x: 1, y: 5 }), (9, b), (107, c)]);
    assert_eq!(part2(&points, laser, &angles, &vec![0]), None);
    assert_eq!(part2(&points, laser, &angles, &vec![0, usize::MAX]), None);
    assert_eq!(part2(&vec![], laser, &vec![], &vec![]), Some(vec![]));
    // equally far at the same angle: the earlier one is hit first
    let twins = vec![Point { x: 2, y: 4 }, Point { x: 0, y: 4 }];
    let targets = part2(&twins, laser, &vec![5, 5], &vec![0, 10]).expect("twins");
    assert_eq!(targets[0].point, twins[0]);
    assert_eq!((targets[1].point, targets[1].key, targets[1].rank), (twins[1], 15, 1));
}

#[test]
fn targets_in_order() {
    let p = Point { x: 0, y: 0 };
    let t = |key, angle, rank| Target { key, angle, rank, point: p };
    assert_eq!(compare(&t(1, 9, 9), &t(2, 0, 0)), Ordering::Less);
    assert_eq!(compare(&t(2, 0, 0), &t(1, 9, 9)), Ordering::Greater);
    assert_eq!(compare(&t(2, 1, 9), &t(2, 3, 0)), Ordering::Less);
    assert_eq!(compare(&t(2, 3, 1), &t(2, 3, 0)), Ordering::Greater);
    assert_eq!(compare(&t(2, 3, 1), &t(2, 3, 1)), Ordering::Equal);
}
