use intcode::puzzles::orbits::{
    common, parent_line, parse_orbit, part2, path_to, same_name, sum_count_descendants,
    tally_descendants_recursive, Orbit,
};

fn name(s: &str) -> Vec<u8> {
    s.as_bytes().to_vec()
}

fn map(lines: &[&str]) -> Vec<Orbit> {
    lines.iter().map(|l| parse_orbit(l.as_bytes()).expect("an orbit")).collect()
}

const EXAMPLE: [&str; 11] =
    ["COM)B", "B)C", "C)D", "D)E", "E)F", "B)G", "G)H", "D)I", "E)J", "J)K", "K)L"];

#[test]
fn lines_of_the_map() {
    assert_eq!(parse_orbit(b"COM)B"), Some(Orbit { parent: name("COM"), child: name("B") }));
    assert_eq!(parse_orbit(b"A)B)C"), Some(Orbit { parent: name("A"), child: name("B") }));
    assert_eq!(parse_orbit(b")"), Some(Orbit { parent: name(""), child: name("") }));
    assert_eq!(parse_orbit(b"A)"), Some(Orbit { parent: name("A"), child: name("") }));
    assert_eq!(parse_orbit(b"AB"), None);
    assert_eq!(parse_orbit(b""), None);
    assert!(same_name(&name("COM"), &name("COM")));
    assert!(!same_name(&name("COM"), &name("CON")));
    assert!(!same_name(&name("COM"), &name("CO")));
}

#[test]
fn example_has_42_orbits() {
    let orbits = map(&EXAMPLE);
    assert_eq!(sum_count_descendants(&orbits, 100), Some(42));
    assert_eq!(tally_descendants_recursive(&orbits, &name("COM"), 100), Some(11));
    assert_eq!(tally_descendants_recursive(&orbits, &name("D"), 100), Some(6));
    assert_eq!(tally_descendants_recursive(&orbits, &name("L"), 100), Some(0));
    assert_eq!(tally_descendants_recursive(&orbits, &name("X"), 0), Some(0));
    assert_eq!(tally_descendants_recursive(&orbits, &name("E"), 3), Some(4));
    assert_eq!(tally_descendants_recursive(&orbits, &name("E"), 2), None);
    assert_eq!(sum_count_descendants(&orbits, 7), Some(42));
    assert_eq!(sum_count_descendants(&orbits, 6), None);
    assert_eq!(sum_count_descendants(&vec![], 0), Some(0));
    // an object that orbits itself has no end of descendants
    assert_eq!(sum_count_descendants(&map(&["A)A"]), 1000), None);
    assert_eq!(sum_count_descendants(&map(&["A)B", "B)A"]), 1000), None);
}

#[test]
fn paths_from_the_centre() {
    let orbits = map(&EXAMPLE);
    assert_eq!(
        path_to(&name("L"), &orbits, 100),
        Some(vec![name("COM"), name("B"), name("C"), name("D"), name("E"), name("J"), name("K")])
    );
    assert_eq!(path_to(&name("H"), &orbits, 3), Some(vec![name("COM"), name("B"), name("G")]));
    assert_eq!(path_to(&name("H"), &orbits, 2), None);
    assert_eq!(path_to(&name("COM"), &orbits, 0), Some(vec![]));
    assert_eq!(path_to(&name("X"), &orbits, 100), None);
    assert_eq!(path_to(&name("A"), &map(&["A)B", "B)A"]), 100), None);
    assert_eq!(parent_line(&orbits, &name("G")), Some(5));
    assert_eq!(parent_line(&orbits, &name("COM")), None);
    // where an object is put in orbit twice, the last line counts
    let twice = map(&["COM)A", "COM)B", "A)C", "B)C"]);
    assert_eq!(parent_line(&twice, &name("C")), Some(3));
    assert_eq!(path_to(&name("C"), &twice, 100), Some(vec![name("COM"), name("B")]));
}

#[test]
fn transfers_to_santa() {
    let mut lines = EXAMPLE.to_vec();
    lines.push("K)YOU");
    lines.push("I)SAN");
    let orbits = map(&lines);
    assert_eq!(part2(&orbits, &name("YOU"), &name("SAN"), 100), Some(4));
    assert_eq!(part2(&orbits, &name("SAN"), &name("YOU"), 100), Some(4));
    assert_eq!(part2(&orbits, &name("YOU"), &name("YOU"), 100), Some(0));
    assert_eq!(part2(&orbits, &name("YOU"), &name("L"), 100), Some(0));
    assert_eq!(part2(&orbits, &name("YOU"), &name("H"), 100), Some(6));
    assert_eq!(part2(&orbits, &name("YOU"), &name("NOBODY"), 100), None);
    assert_eq!(part2(&orbits, &name("YOU"), &name("SAN"), 6), None);
    assert_eq!(sum_count_descendants(&orbits, 100), Some(54));
    let a = vec![name("COM"), name("B"), name("C")];
    let b = vec![name("COM"), name("X"), name("C"), name("D")];
    assert_eq!(common(&a, &b), 2);
    assert_eq!(common(&a, &vec![]), 0);
}
