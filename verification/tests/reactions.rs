use intcode::puzzles::reactions::{
    get_max_fuel, get_ore_required, index_of, is_al, parse_chem_count, parse_recipe, recipe_for,
    stock, ChemCount, Factory, Recipe,
};

fn amount(count: u32, chem: &str) -> ChemCount {
    ChemCount { chem: chem.as_bytes().to_vec(), count }
}

fn recipe(inputs: &[(u32, &str)], count: u32, chem: &str) -> Recipe {
    Recipe { output: amount(count, chem), inputs: inputs.iter().map(|(n, c)| amount(*n, c)).collect() }
}

fn book(lines: &[&str]) -> Vec<Recipe> {
    lines.iter().map(|l| parse_recipe(l.as_bytes()).expect("a recipe")).collect()
}

const MANY: usize = 1_000_000;

#[test]
fn reactions_test_example1() {
    let input = vec![
        recipe(&[(10, "ORE")], 10, "A"),
        recipe(&[(1, "ORE")], 1, "B"),
        recipe(&[(7, "A"), (1, "B")], 1, "C"),
        recipe(&[(7, "A"), (1, "C")], 1, "D"),
        recipe(&[(7, "A"), (1, "D")], 1, "E"),
        recipe(&[(7, "A"), (1, "E")], 1, "FUEL"),
    ];
    let ore_required = get_ore_required(&input, MANY);
    assert_eq!(ore_required, Some(31));
}

#[test]
fn test_example2() {
    let input = vec![
        recipe(&[(9, "ORE")], 2, "A"),
        recipe(&[(8, "ORE")], 3, "B"),
        recipe(&[(7, "ORE")], 5, "C"),
        recipe(&[(3, "A"), (4, "B")], 1, "AB"),
        recipe(&[(5, "B"), (7, "C")], 1, "BC"),
        recipe(&[(4, "C"), (1, "A")], 1, "CA"),
        recipe(&[(2, "AB"), (3, "BC"), (4, "CA")], 1, "FUEL"),
    ];
    let ore_required = get_ore_required(&input, MANY);
    assert_eq!(ore_required, Some(165));
}

#[test]
fn recipes_are_read_from_lines() {
    assert_eq!(
        parse_recipe(b"7 A, 1 B => 1 C"),
        Some(recipe(&[(7, "A"), (1, "B")], 1, "C"))
    );
    assert_eq!(parse_recipe(b"10 ORE => 10 A"), Some(recipe(&[(10, "ORE")], 10, "A")));
    assert_eq!(
        parse_recipe(b"2 AB, 3 BC, 4 CA => 1 FUEL and more"),
        Some(recipe(&[(2, "AB"), (3, "BC"), (4, "CA")], 1, "FUEL"))
    );
    assert_eq!(parse_recipe(b"123 ABCDE => 999 z"), Some(recipe(&[(123, "ABCDE")], 999, "z")));
    assert_eq!(parse_recipe(b" => 1 C"), None);
    assert_eq!(parse_recipe(b"7 A"), None);
    assert_eq!(parse_recipe(b"7 A =>"), None);
    assert_eq!(parse_recipe(b"7 A => C"), None);
    assert_eq!(parse_recipe(b"7 A -> 1 C"), None);
    assert_eq!(parse_recipe(b"7A => 1 C"), None);
    assert_eq!(parse_recipe(b""), None);
    // a fourth digit is no blank
    assert_eq!(parse_recipe(b"1234 A => 1 C"), None);
    // a sixth letter is no arrow
    assert_eq!(parse_recipe(b"1 ABCDEF => 1 C"), None);
    assert_eq!(parse_chem_count(b"7 A, 1 B", 0), Some((amount(7, "A"), 5)));
    assert_eq!(parse_chem_count(b"7 A, 1 B", 5), Some((amount(1, "B"), 8)));
    assert_eq!(parse_chem_count(b"7 A,1 B", 0), Some((amount(7, "A"), 3)));
    assert_eq!(parse_chem_count(b"7 A, 1 B", 8), None);
    assert_eq!(parse_chem_count(b"7 1", 0), None);
    assert!(is_al(b'A') && is_al(b'Z') && is_al(b'a') && is_al(b'z'));
    assert!(!is_al(b'@') && !is_al(b'[') && !is_al(b'`') && !is_al(b'{') && !is_al(b'1'));
}

#[test]
fn larger_examples() {
    let first = book(&[
        "157 ORE => 5 NZVS",
        "165 ORE => 6 DCFZ",
        "44 XJWVT, 5 KHKGT, 1 QDVJ, 29 NZVS, 9 GPVTF, 48 HKGWZ => 1 FUEL",
        "12 HKGWZ, 1 GPVTF, 8 PSHF => 9 QDVJ",
        "179 ORE => 7 PSHF",
        "177 ORE => 5 HKGWZ",
        "7 DCFZ, 7 PSHF => 2 XJWVT",
        "165 ORE => 2 GPVTF",
        "3 DCFZ, 7 NZVS, 5 HKGWZ, 10 PSHF => 8 KHKGT",
    ]);
    assert_eq!(get_ore_required(&first, MANY), Some(13312));
    assert_eq!(get_ore_required(&first, 3), None);
}

#[test]
fn fuel_from_a_stock_of_ore() {
    let simple = book(&["10 ORE => 3 A", "2 A => 1 FUEL"]);
    assert_eq!(get_ore_required(&simple, MANY), Some(10));
    // 3 units of fuel take 20 ore, the fourth needs a third batch; a unit
    // that uses up the last of the ore is not counted
    assert_eq!(get_max_fuel(21, &simple, MANY, 1000), Some(3));
    assert_eq!(get_max_fuel(30, &simple, MANY, 1000), Some(3));
    assert_eq!(get_max_fuel(20, &simple, MANY, 1000), Some(1));
    assert_eq!(get_max_fuel(11, &simple, MANY, 1000), Some(1));
    assert_eq!(get_max_fuel(10, &simple, MANY, 1000), Some(0));
    assert_eq!(get_max_fuel(9, &simple, MANY, 1000), Some(0));
    assert_eq!(get_max_fuel(1000, &simple, MANY, 10), None);
    assert_eq!(get_max_fuel(1000, &simple, 1, 1000), None);
}

#[test]
fn factories_that_fail() {
    assert_eq!(get_ore_required(&vec![], MANY), None);
    assert_eq!(get_ore_required(&book(&["1 ORE => 0 FUEL"]), MANY), None);
    assert_eq!(get_ore_required(&book(&["1 A => 1 FUEL"]), MANY), None);
    assert_eq!(get_ore_required(&book(&["1 FUEL => 1 FUEL"]), 1000), None);
    // the last recipe for a chemical counts
    assert_eq!(get_ore_required(&book(&["1 ORE => 1 FUEL", "5 ORE => 1 FUEL"]), MANY), Some(5));
    let big = vec![recipe(&[(u32::MAX, "ORE"), (u32::MAX, "ORE")], 1, "FUEL")];
    assert_eq!(get_ore_required(&big, MANY), None);
    let mut factory = Factory::new();
    assert!(!factory.step(&vec![]));
    assert!(factory.settle(&vec![], 0));
    factory.required.push(amount(7, "ORE"));
    assert!(!factory.settle(&vec![], 0));
    assert!(factory.settle(&vec![], 1));
    assert_eq!(factory.ore, 7);
}

#[test]
fn stocks_of_chemicals() {
    let mut list = vec![amount(3, "A"), amount(4, "B")];
    assert_eq!(index_of(&list, &b"B".to_vec()), Some(1));
    assert_eq!(index_of(&list, &b"C".to_vec()), None);
    assert!(stock(&mut list, &b"B".to_vec(), 6));
    assert!(stock(&mut list, &b"C".to_vec(), 0));
    assert_eq!(list, vec![amount(3, "A"), amount(10, "B"), amount(0, "C")]);
    assert!(!stock(&mut list, &b"A".to_vec(), u32::MAX as u64 - 2));
    assert!(stock(&mut list, &b"A".to_vec(), u32::MAX as u64 - 3));
    assert!(!stock(&mut list, &b"D".to_vec(), u32::MAX as u64 + 1));
    assert_eq!(list.len(), 3);
    let recipes = book(&["1 ORE => 1 A", "2 ORE => 1 B", "3 ORE => 1 A"]);
    assert_eq!(recipe_for(&recipes, &b"A".to_vec()), Some(2));
    assert_eq!(recipe_for(&recipes, &b"B".to_vec()), Some(1));
    assert_eq!(recipe_for(&recipes, &b"ORE".to_vec()), None);
}
