use intcode::puzzles::paths::{same_node, shortest, Edge};
use intcode::puzzles::vault::{
    find_nearest_keys, get_reachable, locate, make_map, node_id, visit_all_nodes, Dest, KeyGraph,
    TourGraph,
};

const MANY: usize = 1_000_000;

fn picture(lines: &[&str]) -> Vec<Vec<char>> {
    lines.iter().map(|l| l.chars().collect()).collect()
}

fn id(c: char) -> usize {
    node_id(c).expect("a place")
}

fn key(c: char) -> u32 {
    1 << id(c)
}

fn sorted(mut list: Vec<Dest>) -> Vec<Dest> {
    list.sort_by_key(|d| (d.node, d.needs_keys, d.steps));
    list
}

fn solve(lines: &[&str], robots: &[char]) -> Option<usize> {
    let map = make_map(picture(lines), MANY).expect("a map");
    let remaining_keys = map.keys();
    visit_all_nodes(&map, remaining_keys, robots.iter().map(|c| id(*c)).collect(), MANY)
}

#[test]
fn test_part2() {
    let lines = vec![
        "#######",
        "#a.#Cd#",
        "##@#*##",
        "#######",
        "##?#~##",
        "#cB#Ab#",
        "#######",
    ];
    let grid: Vec<Vec<char>> = lines.iter().map(|l| l.chars().collect()).collect();
    let map = make_map(grid, MANY).expect("a map");
    let keys = map.keys();
    assert_eq!(keys, key('a') | key('b') | key('c') | key('d'));
    let min_steps = visit_all_nodes(&map, keys, vec![id('@'), id('*'), id('~'), id('?')], MANY);
    assert_eq!(min_steps, Some(8));
}

#[test]
fn one_robot_examples() {
    assert_eq!(solve(&["#########", "#b.A.@.a#", "#########"], &['@']), Some(8));
    assert_eq!(
        solve(
            &[
                "########################",
                "#f.D.E.e.C.b.A.@.a.B.c.#",
                "######################.#",
                "#d.....................#",
                "########################",
            ],
            &['@'],
        ),
        Some(86)
    );
    assert_eq!(
        solve(
            &[
                "########################",
                "#...............b.C.D.f#",
                "#.######################",
                "#.....@.a.B.c.d.A.e.F.g#",
                "########################",
            ],
            &['@'],
        ),
        Some(132)
    );
    assert_eq!(
        solve(
            &[
                "########################",
                "#@..............ac.GI.b#",
                "###d#e#f################",
                "###A#B#C################",
                "###g#h#i################",
                "########################",
            ],
            &['@'],
        ),
        Some(81)
    );
}

#[test]
fn keys_behind_doors_without_keys_are_out_of_reach() {
    assert_eq!(solve(&["#######", "#@.A.a#", "#######"], &['@']), None);
    assert_eq!(solve(&["#####", "#@..#", "#####"], &['@']), Some(0));
    assert_eq!(solve(&["#####", "#@#a#", "#####"], &['@']), None);
}

#[test]
fn places_and_their_numbers() {
    assert_eq!(node_id('a'), Some(0));
    assert_eq!(node_id('z'), Some(25));
    assert_eq!(node_id('@'), Some(26));
    assert_eq!(node_id('*'), Some(27));
    assert_eq!(node_id('~'), Some(28));
    assert_eq!(node_id('?'), Some(29));
    assert_eq!(node_id('A'), None);
    assert_eq!(node_id('.'), None);
    assert_eq!(node_id('#'), None);
    let grid = picture(&["#####", "#a.a#", "#@.b#", "#####"]);
    assert_eq!(locate(&grid, id('a')), Some((1, 1)));
    assert_eq!(locate(&grid, id('b')), Some((3, 2)));
    assert_eq!(locate(&grid, id('@')), Some((1, 2)));
    assert_eq!(locate(&grid, id('c')), None);
}

#[test]
fn routes_to_the_nearest_keys() {
    let grid = picture(&["#########", "#b.A.@.a#", "#########"]);
    let found = find_nearest_keys(&grid, (5, 1), MANY).expect("routes");
    assert_eq!(
        sorted(found),
        vec![
            Dest { node: id('a'), steps: 2, needs_keys: 0 },
            Dest { node: id('b'), steps: 4, needs_keys: key('a') },
        ]
    );
    assert_eq!(find_nearest_keys(&grid, (5, 1), 0), None);
    assert_eq!(find_nearest_keys(&grid, (5, 1), 1), None);
    assert_eq!(find_nearest_keys(&grid, (5, 1), 2), None);
    assert_eq!(find_nearest_keys(&grid, (5, 1), 3).map(|f| f.len()), Some(2));
    assert_eq!(find_nearest_keys(&grid, (0, 0), MANY), Some(vec![]));
    assert_eq!(find_nearest_keys(&grid, (50, 50), MANY), Some(vec![]));
    // routes stop at the first key and do not enter a cell twice
    let ring = picture(&["#####", "#a.b#", "#.#.#", "#..@#", "#####"]);
    let found = find_nearest_keys(&ring, (3, 3), MANY).expect("routes");
    assert_eq!(
        sorted(found),
        vec![
            Dest { node: id('a'), steps: 4, needs_keys: 0 },
            Dest { node: id('b'), steps: 2, needs_keys: 0 },
        ]
    );
    let from_b = find_nearest_keys(&ring, (3, 1), MANY).expect("routes");
    assert_eq!(
        sorted(from_b),
        vec![
            Dest { node: id('a'), steps: 2, needs_keys: 0 },
            Dest { node: id('a'), steps: 6, needs_keys: 0 },
        ]
    );
    let map = make_map(ring, MANY).expect("a map");
    assert_eq!(
        map.edges[id('b')],
        Some(vec![Dest { node: id('a'), steps: 2, needs_keys: 0 }])
    );
    assert_eq!(map.edges[id('c')], None);
    assert_eq!(map.keys(), key('a') | key('b'));
    // doors on the way are added up
    let doors = picture(&["########", "#@A.BA.a", "########"]);
    let found = find_nearest_keys(&doors, (1, 1), MANY).expect("routes");
    assert_eq!(found, vec![Dest { node: id('a'), steps: 6, needs_keys: key('a') | key('b') }]);
}

#[test]
fn places_within_reach() {
    let grid = picture(&["#########", "#b.A.@.a#", "#########"]);
    let map = make_map(grid, MANY).expect("a map");
    let start = vec![id('@')];
    let with_all_missing = get_reachable(start.clone(), &map, key('a') | key('b'), MANY).expect("places");
    let mut seen: Vec<(Vec<usize>, usize)> =
        with_all_missing.iter().map(|e| (e.to.clone(), e.cost)).collect();
    seen.sort();
    assert_eq!(seen, vec![(vec![id('a')], 2), (vec![id('@')], 0)]);
    let with_a = get_reachable(start.clone(), &map, key('b'), MANY).expect("places");
    let mut seen: Vec<(Vec<usize>, usize)> = with_a.iter().map(|e| (e.to.clone(), e.cost)).collect();
    seen.sort();
    assert_eq!(seen, vec![(vec![id('a')], 2), (vec![id('b')], 4), (vec![id('@')], 0)]);
    assert_eq!(get_reachable(start.clone(), &map, 0, 1), None);
    assert_eq!(get_reachable(vec![id('z')], &map, 0, MANY), None);
    assert_eq!(get_reachable(vec![99], &map, 0, MANY), None);
    let graph = KeyGraph { vault: &map, not_got_keys: key('a') };
    let moves = graph.moves(&vec![id('@')]).expect("moves");
    assert_eq!(moves, vec![Edge { to: vec![id('a')], cost: 2 }]);
    let tours = TourGraph { vault: &map, fuel: MANY };
    let mut moves = tours.tours(&vec![id('@'), (key('a') | key('b')) as usize]).expect("tours");
    moves.sort_by_key(|e| e.cost);
    assert_eq!(
        moves,
        vec![
            Edge { to: vec![id('@'), (key('a') | key('b')) as usize], cost: 0 },
            Edge { to: vec![id('a'), key('b') as usize], cost: 2 },
        ]
    );
    assert_eq!(tours.tours(&vec![]), None);
    let found = shortest(&tours, &vec![id('@'), (key('a') | key('b')) as usize], MANY).expect("tours");
    assert!(found.contains(&Edge { to: vec![id('b'), 0], cost: 8 }));
    assert!(same_node(&vec![1, 2], &vec![1, 2]));
    assert!(!same_node(&vec![1, 2], &vec![1, 3]));
    assert!(!same_node(&vec![1, 2], &vec![1]));
}
