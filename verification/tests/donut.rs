use intcode::puzzles::donut::{
    adjacent, cell, find, find_hole, lookup, make_map, scan, steps_to_end, Line, Maze, Portal,
    Spot, Tag,
};

const MANY: usize = 100_000;

fn picture(input: &[&str]) -> Vec<Vec<char>> {
    input.iter().map(|line| line.chars().collect()).collect()
}

const FIRST: [&str; 19] = [
    "         A",
    "         A",
    "  #######.#########",
    "  #######.........#",
    "  #######.#######.#",
    "  #######.#######.#",
    "  #######.#######.#",
    "  #####  B    ###.#",
    "BC...##  C    ###.#",
    "  ##.##       ###.#",
    "  ##...DE  F  ###.#",
    "  #####    G  ###.#",
    "  #########.#####.#",
    "DE..#######...###.#",
    "  #.#########.###.#",
    "FG..#########.....#",
    "  ###########.#####",
    "             Z",
    "             Z",
];

const SECOND: [&str; 37] = [
    "                   A",
    "                   A",
    "  #################.#############",
    "  #.#...#...................#.#.#",
    "  #.#.#.###.###.###.#########.#.#",
    "  #.#.#.......#...#.....#.#.#...#",
    "  #.#########.###.#####.#.#.###.#",
    "  #.............#.#.....#.......#",
    "  ###.###########.###.#####.#.#.#",
    "  #.....#        A   C    #.#.#.#",
    "  #######        S   P    #####.#",
    "  #.#...#                 #......VT",
    "  #.#.#.#                 #.#####",
    "  #...#.#               YN....#.#",
    "  #.###.#                 #####.#",
    "DI....#.#                 #.....#",
    "  #####.#                 #.###.#",
    "ZZ......#               QG....#..AS",
    "  ###.###                 #######",
    "JO..#.#.#                 #.....#",
    "  #.#.#.#                 ###.#.#",
    "  #...#..DI             BU....#..LF",
    "  #####.#                 #.#####",
    "YN......#               VT..#....QG",
    "  #.###.#                 #.###.#",
    "  #.#...#                 #.....#",
    "  ###.###    J L     J    #.#.###",
    "  #.....#    O F     P    #.#...#",
    "  #.###.#####.#.#####.#####.###.#",
    "  #...#.#.#...#.....#.....#.#...#",
    "  #.#####.###.###.#.#.#########.#",
    "  #...#.#.....#...#.#.#.#.....#.#",
    "  #.###.#####.###.###.#.#.#######",
    "  #.#.........#...#.............#",
    "  #########.###.###.#############",
    "           B   J   C",
    "           U   P   P",
];

#[test]
fn test() {
    let map = make_map(picture(&FIRST)).expect("a maze");
    let steps = steps_to_end(&map, false, MANY);
    assert_eq!(steps, Some(23));
}

#[test]
fn test2() {
    let map = make_map(picture(&SECOND)).expect("a maze");
    let steps = steps_to_end(&map, false, MANY);
    assert_eq!(steps, Some(58));
}

#[test]
fn first_maze_is_read_as_drawn() {
    let map = make_map(picture(&FIRST)).expect("a maze");
    assert_eq!(map.start, (9, 2));
    assert_eq!(map.end, (13, 16));
    let hole = find_hole(&map.grid, map.grid[2].len());
    assert_eq!((hole.x1, hole.y1, hole.x2, hole.y2), (7, 7, 13, 11));
    let mut outer = map.teleports_outer.clone();
    outer.sort_by_key(|p| p.from);
    assert_eq!(
        outer,
        vec![
            Portal { from: (2, 8), to: (9, 6) },
            Portal { from: (2, 13), to: (6, 10) },
            Portal { from: (2, 15), to: (11, 12) },
        ]
    );
    let mut inner = map.teleports_inner.clone();
    inner.sort_by_key(|p| p.from);
    assert_eq!(
        inner,
        vec![
            Portal { from: (6, 10), to: (2, 13) },
            Portal { from: (9, 6), to: (2, 8) },
            Portal { from: (11, 12), to: (2, 15) },
        ]
    );
    assert_eq!(lookup(&map.teleports_inner, (9, 6)), Some((2, 8)));
    assert_eq!(lookup(&map.teleports_inner, (9, 7)), None);
    assert!(map.is_open(9, 2));
    assert!(!map.is_open(9, 1));
    assert!(!map.is_open(2, 2));
    assert!(!map.is_open(500, 2));
    assert!(!map.is_open(2, 500));
}

#[test]
fn levels_close_the_outer_portals_of_the_top_level() {
    let map = make_map(picture(&FIRST)).expect("a maze");
    // with levels the only way is the long way round: 26 steps
    assert_eq!(steps_to_end(&map, true, MANY), Some(26));
    assert_eq!(steps_to_end(&map, true, 25), Some(26));
    assert_eq!(steps_to_end(&map, true, 24), None);
    assert_eq!(steps_to_end(&map, false, 22), Some(23));
    assert_eq!(steps_to_end(&map, false, 21), None);
    let up = map.successors(true, &Spot { x: 2, y: 8, depth: 1 });
    assert!(up.contains(&Spot { x: 9, y: 6, depth: 0 }));
    assert!(up.contains(&Spot { x: 3, y: 8, depth: 1 }));
    assert_eq!(up.len(), 2);
    let closed = map.successors(true, &Spot { x: 2, y: 8, depth: 0 });
    assert_eq!(closed, vec![Spot { x: 3, y: 8, depth: 0 }]);
    let down = map.successors(true, &Spot { x: 9, y: 6, depth: 3 });
    assert!(down.contains(&Spot { x: 2, y: 8, depth: 4 }));
    let flat = map.successors(false, &Spot { x: 9, y: 6, depth: 0 });
    assert!(flat.contains(&Spot { x: 2, y: 8, depth: 0 }));
    // in the second maze the levels never lead to the end
    let second = make_map(picture(&SECOND)).expect("a maze");
    assert!(matches!(steps_to_end(&second, true, 300), None | Some(0)));
}

#[test]
fn mazes_without_a_way() {
    let walled = Maze {
        start: (1, 1),
        end: (3, 1),
        grid: picture(&["#####", "#.#.#", "#####"]),
        teleports_inner: vec![],
        teleports_outer: vec![],
    };
    assert_eq!(steps_to_end(&walled, false, MANY), Some(0));
    assert_eq!(steps_to_end(&walled, true, 0), Some(0));
    let open = Maze {
        start: (1, 1),
        end: (3, 1),
        grid: picture(&["#####", "#...#", "#####"]),
        teleports_inner: vec![],
        teleports_outer: vec![],
    };
    assert_eq!(steps_to_end(&open, false, MANY), Some(2));
    assert_eq!(steps_to_end(&open, false, 0), None);
    assert_eq!(steps_to_end(&open, false, 1), Some(2));
    let next_door = Maze { end: (2, 1), ..open };
    assert_eq!(steps_to_end(&next_door, true, 0), Some(1));
    let linked = Maze {
        start: (1, 1),
        end: (4, 1),
        grid: picture(&["######", "#.#..#", "######"]),
        teleports_inner: vec![Portal { from: (1, 1), to: (9, 9) }, Portal { from: (1, 1), to: (3, 1) }],
        teleports_outer: vec![],
    };
    // the last portal from a cell counts
    assert_eq!(steps_to_end(&linked, false, MANY), Some(2));
}

#[test]
fn pictures_that_show_no_maze() {
    assert!(make_map(picture(&[])).is_none());
    assert!(make_map(picture(&["  A", "  A"])).is_none());
    // no hole
    assert!(make_map(picture(&["  A  ", "  A  ", "##.##", "##.##", "  Z  ", "  Z  "])).is_none());
    // a label at the edge without a partner at the hole
    let mut lonely: Vec<String> = FIRST.iter().map(|s| s.to_string()).collect();
    lonely[13] = "QQ..#######...###.#".to_string();
    let lonely: Vec<&str> = lonely.iter().map(|s| s.as_str()).collect();
    assert!(make_map(picture(&lonely)).is_none());
}

#[test]
fn labels_along_a_line() {
    let grid = picture(&["AB D", "AC  ", "...."]);
    let mut tags = vec![];
    scan(&grid, &mut tags, Line { x: 0, y: 0, across: true, back: false }, 4);
    assert_eq!(
        tags,
        vec![
            Tag { label: ('A', 'A'), at: (0, 2) },
            Tag { label: ('B', 'C'), at: (1, 2) },
            Tag { label: ('D', ' '), at: (3, 2) },
        ]
    );
    scan(&grid, &mut tags, Line { x: 0, y: 0, across: true, back: true }, 4);
    assert_eq!(tags.len(), 3);
    scan(&grid, &mut tags, Line { x: 1, y: 0, across: false, back: true }, 3);
    assert_eq!(tags[3..], [Tag { label: ('B', ' '), at: (0, 0) }, Tag { label: ('C', ' '), at: (0, 1) },
        Tag { label: ('.', '.'), at: (0, 2) }]);
    assert_eq!(find(&tags, ('B', 'C')), Some(1));
    assert_eq!(find(&tags, ('Z', 'Z')), None);
    tags.push(Tag { label: ('A', 'A'), at: (7, 7) });
    assert_eq!(find(&tags, ('A', 'A')), Some(6));
    assert_eq!(cell(&grid, 3, 0), Some('D'));
    assert_eq!(cell(&grid, 4, 0), None);
    assert_eq!(cell(&grid, 0, 3), None);
    assert!(adjacent((3, 4), (3, 5)));
    assert!(adjacent((3, 4), (2, 4)));
    assert!(!adjacent((3, 4), (4, 5)));
    assert!(!adjacent((3, 4), (3, 4)));
    assert!(!adjacent((0, 0), (usize::MAX, 0)));
}
