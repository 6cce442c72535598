use vstd::prelude::*;
use vstd::slice::{slice_subrange, slice_to_vec};

verus! {

/// The byte that stands between the two names of an orbit.
pub const BRACKET: u8 = 41;

/// One line of the map: `child` is in orbit around `parent`.
#[derive(Debug, Clone, PartialEq, Eq)]
pub struct Orbit {
    pub parent: Vec<u8>,
    pub child: Vec<u8>,
}

/// The view of an `Orbit`.
pub struct OrbitView {
    pub parent: Seq<u8>,
    pub child: Seq<u8>,
}

impl View for Orbit {
    type V = OrbitView;

    open spec fn view(&self) -> OrbitView {
        OrbitView { parent: self.parent@, child: self.child@ }
    }
}

/// The orbits of `map`.
pub open spec fn orbits(map: Seq<Orbit>) -> Seq<OrbitView> {
    Seq::new(map.len(), |k: int| map[k]@)
}

/// The name of the object that everything orbits in the end: `COM`.
pub open spec fn com() -> Seq<u8> {
    seq![67u8, 79u8, 77u8]
}

/// The place of the first bracket in `line` at or after `from`, or the
/// length of `line` when there is none.
pub open spec fn bracket_from(line: Seq<u8>, from: int) -> int
    decreases line.len() - from,
{
    if from >= line.len() {
        line.len() as int
    } else if line[from] == BRACKET {
        from
    } else {
        bracket_from(line, from + 1)
    }
}

/// The orbit that `line` writes as `parent)child`: the parent is what
/// stands before the first bracket, the child what stands between it and
/// the second bracket or the end of the line. A line without a bracket
/// writes none.
pub open spec fn spec_parse_orbit(line: Seq<u8>) -> Option<OrbitView> {
    let first = bracket_from(line, 0);
    if first >= line.len() {
        None
    } else {
        Some(
            OrbitView {
                parent: line.subrange(0, first),
                child: line.subrange(first + 1, bracket_from(line, first + 1)),
            },
        )
    }
}

/// The place of the first bracket in `line` at or after `from`.
fn find_bracket(line: &[u8], from: usize) -> (at: usize)
    requires
        from <= line@.len(),
    ensures
        at == bracket_from(line@, from as int),
        from <= at <= line@.len(),
{
    let mut at: usize = from;
    while at < line.len() && line[at] != BRACKET
        invariant
            from <= at <= line@.len(),
            bracket_from(line@, at as int) == bracket_from(line@, from as int),
        decreases line@.len() - at,
    {
        at = at + 1;
    }
    at
}

/// Reads one line of the map.
pub fn parse_orbit(line: &[u8]) -> (r: Option<Orbit>)
    ensures
        match r {
            Some(orbit) => spec_parse_orbit(line@) == Some(orbit@),
            None => spec_parse_orbit(line@).is_none(),
        },
{
    let first: usize = find_bracket(line, 0);
    if first >= line.len() {
        return None;
    }
    let second: usize = find_bracket(line, first + 1);
    let parent: Vec<u8> = slice_to_vec(slice_subrange(line, 0, first));
    let child: Vec<u8> = slice_to_vec(slice_subrange(line, first + 1, second));
    Some(Orbit { parent, child })
}

/// Whether the two names are the same.
pub fn same_name(a: &Vec<u8>, b: &Vec<u8>) -> (r: bool)
    ensures
        r == (a@ == b@),
{
    if a.len() != b.len() {
        return false;
    }
    let mut i: usize = 0;
    while i < a.len()
        invariant
            i <= a.len(),
            a@.len() == b@.len(),
            forall|k: int| 0 <= k < i ==> a@[k] == b@[k],
        decreases a.len() - i,
    {
        if a[i] != b[i] {
            return false;
        }
        i = i + 1;
    }
    assert(a@ =~= b@);
    true
}

/// The last of the first `upto` lines of `map` that puts `name` in orbit,
/// or -1 when none does. Where several lines do, the last one counts.
pub open spec fn spec_parent_line(map: Seq<OrbitView>, name: Seq<u8>, upto: int) -> int
    decreases upto,
{
    if upto <= 0 {
        -1
    } else if map[upto - 1].child == name {
        upto - 1
    } else {
        spec_parent_line(map, name, upto - 1)
    }
}

/// The line of `map` that puts `name` in orbit, if there is one.
pub fn parent_line(map: &Vec<Orbit>, name: &Vec<u8>) -> (r: Option<usize>)
    ensures
        match r {
            Some(k) => k == spec_parent_line(orbits(map@), name@, map@.len() as int) && k
                < map@.len(),
            None => spec_parent_line(orbits(map@), name@, map@.len() as int) == -1,
        },
{
    let mut k: usize = map.len();
    while k > 0
        invariant
            k <= map@.len(),
            spec_parent_line(orbits(map@), name@, k as int) == spec_parent_line(
                orbits(map@),
                name@,
                map@.len() as int,
            ),
        decreases k,
    {
        if same_name(&map[k - 1].child, name) {
            return Some((k - 1) as usize);
        }
        k = k - 1;
    }
    None
}

/// The objects between `COM` and `name`, the nearest to `name` first, when
/// `name` is at most `fuel` orbits away from `COM`; else `None`.
pub open spec fn spec_ancestors(map: Seq<OrbitView>, name: Seq<u8>, fuel: nat) -> Option<
    Seq<Seq<u8>>,
>
    decreases fuel,
{
    if name == com() {
        Some(Seq::empty())
    } else if fuel == 0 {
        None
    } else {
        let k = spec_parent_line(map, name, map.len() as int);
        if k < 0 {
            None
        } else {
            match spec_ancestors(map, map[k].parent, (fuel - 1) as nat) {
                None => None,
                Some(above) => Some(seq![map[k].parent] + above),
            }
        }
    }
}

/// The objects that `name` orbits, directly or not, from `COM` down to the
/// one it orbits directly. Returns `None` when the chain of orbits from
/// `name` does not reach `COM` within `fuel` orbits.
pub fn path_to(name: &Vec<u8>, map: &Vec<Orbit>, fuel: usize) -> (r: Option<Vec<Vec<u8>>>)
    ensures
        match r {
            Some(path) => spec_ancestors(orbits(map@), name@, fuel as nat) == Some(
                names(path@).reverse(),
            ),
            None => spec_ancestors(orbits(map@), name@, fuel as nat).is_none(),
        },
{
    let mut root: Vec<u8> = Vec::new();
    root.push(67);
    root.push(79);
    root.push(77);
    assert(root@ =~= com());
    let mut path: Vec<Vec<u8>> = Vec::new();
    let mut current: Vec<u8> = name.clone();
    assert(current@ =~= name@);
    let mut left: usize = fuel;
    assert(names(path@) =~= Seq::<Seq<u8>>::empty());
    loop
        invariant
            root@ == com(),
            left <= fuel,
            match spec_ancestors(orbits(map@), current@, left as nat) {
                Some(above) => spec_ancestors(orbits(map@), name@, fuel as nat) == Some(
                    names(path@) + above,
                ),
                None => spec_ancestors(orbits(map@), name@, fuel as nat).is_none(),
            },
        ensures
            current@ == com(),
        decreases left,
    {
        if same_name(&current, &root) {
            break;
        }
        if left == 0 {
            return None;
        }
        let k: usize = match parent_line(map, &current) {
            Some(k) => k,
            None => {
                return None;
            },
        };
        let ghost before = names(path@);
        let ghost rest = spec_ancestors(orbits(map@), map@[k as int].parent@, (left - 1) as nat);
        current = map[k].parent.clone();
        assert(current@ =~= map@[k as int].parent@);
        path.push(current.clone());
        left = left - 1;
        proof {
            assert(names(path@) =~= before.push(current@));
            if rest.is_some() {
                assert(names(path@) + rest.unwrap() =~= before + (seq![current@] + rest.unwrap()));
            }
        }
    }
    assert(names(path@) + Seq::<Seq<u8>>::empty() =~= names(path@));
    let mut reversed: Vec<Vec<u8>> = Vec::new();
    let mut i: usize = path.len();
    while i > 0
        invariant
            i <= path@.len(),
            reversed@.len() == path@.len() - i,
            forall|k: int|
                0 <= k < reversed@.len() ==> (#[trigger] reversed@[k])@ == path@[path@.len() - 1
                    - k]@,
        decreases i,
    {
        i = i - 1;
        let copy: Vec<u8> = path[i].clone();
        assert(copy@ =~= path@[i as int]@);
        reversed.push(copy);
    }
    assert(names(reversed@).reverse() =~= names(path@));
    Some(reversed)
}

/// The names in `list`.
pub open spec fn names(list: Seq<Vec<u8>>) -> Seq<Seq<u8>> {
    Seq::new(list.len(), |k: int| list[k]@)
}

/// The number of objects that orbit `name`, directly or not, counting the
/// lines before `upto` for the direct ones: each object in direct orbit and
/// all that orbit it. `None` when the orbits go deeper than `fuel`.
pub open spec fn spec_tally(map: Seq<OrbitView>, name: Seq<u8>, fuel: nat, upto: int) -> Option<nat>
    decreases fuel, upto,
{
    if upto <= 0 {
        Some(0)
    } else {
        match spec_tally(map, name, fuel, upto - 1) {
            None => None,
            Some(before) => if map[upto - 1].parent != name {
                Some(before)
            } else if fuel == 0 {
                None
            } else {
                match spec_tally(map, map[upto - 1].child, (fuel - 1) as nat, map.len() as int) {
                    None => None,
                    Some(below) => Some(before + 1 + below),
                }
            },
        }
    }
}

/// What a count of descendants returns: the count, or `None` when the
/// orbits go deeper than the fuel or the count does not fit in 64 bits.
pub open spec fn tallied(count: Option<nat>, r: Option<u64>) -> bool {
    match r {
        Some(n) => count == Some(n as nat),
        None => match count {
            None => true,
            Some(n) => n > u64::MAX,
        },
    }
}

/// A count of descendants over more lines is no less.
proof fn lemma_tally_grows(map: Seq<OrbitView>, name: Seq<u8>, fuel: nat, upto: int, more: int)
    requires
        upto <= more,
    ensures
        match spec_tally(map, name, fuel, more) {
            None => true,
            Some(all) => match spec_tally(map, name, fuel, upto) {
                None => false,
                Some(some) => some <= all,
            },
        },
    decreases more - upto,
{
    if upto < more {
        lemma_tally_grows(map, name, fuel, upto, more - 1);
    }
}

/// The number of objects that orbit `name`, directly or not. Returns
/// `None` when the orbits below `name` go deeper than `fuel` or the number
/// does not fit in 64 bits.
pub fn tally_descendants_recursive(map: &Vec<Orbit>, name: &Vec<u8>, fuel: usize) -> (r: Option<u64>)
    ensures
        tallied(spec_tally(orbits(map@), name@, fuel as nat, map@.len() as int), r),
    decreases fuel,
{
    let mut total: u64 = 0;
    let mut k: usize = 0;
    while k < map.len()
        invariant
            k <= map@.len(),
            spec_tally(orbits(map@), name@, fuel as nat, k as int) == Some(total as nat),
        decreases map@.len() - k,
    {
        if same_name(&map[k].parent, name) {
            if fuel == 0 {
                proof {
                    lemma_tally_grows(orbits(map@), name@, fuel as nat, k + 1, map@.len() as int);
                }
                return None;
            }
            let below: Option<u64> = tally_descendants_recursive(map, &map[k].child, fuel - 1);
            let next: Option<u64> = match below {
                Some(b) => match b.checked_add(1) {
                    Some(c) => total.checked_add(c),
                    None => None,
                },
                None => None,
            };
            match next {
                Some(t) => {
                    total = t;
                },
                None => {
                    proof {
                        lemma_tally_grows(
                            orbits(map@),
                            name@,
                            fuel as nat,
                            k + 1,
                            map@.len() as int,
                        );
                    }
                    return None;
                },
            }
        }
        k = k + 1;
    }
    Some(total)
}

/// Whether line `k` is the first to mention the object it puts in orbit,
/// as a parent or as a child.
pub open spec fn first_mention_of_child(map: Seq<OrbitView>, k: int) -> bool {
    forall|j: int|
        0 <= j < k ==> (#[trigger] map[j]).child != map[k].child && map[j].parent != map[k].child
}

/// Whether line `k` is the first to mention the object it names as parent.
pub open spec fn first_mention_of_parent(map: Seq<OrbitView>, k: int) -> bool {
    &&& map[k].parent != map[k].child
    &&& forall|j: int|
        0 <= j < k ==> (#[trigger] map[j]).child != map[k].parent && map[j].parent
            != map[k].parent
}

/// The number of orbits, direct and indirect, among the objects first
/// mentioned in the first `upto` lines: the sum over these objects of the
/// number of objects that orbit them.
pub open spec fn spec_sum(map: Seq<OrbitView>, fuel: nat, upto: int) -> Option<nat>
    decreases upto,
{
    if upto <= 0 {
        Some(0)
    } else {
        let k = upto - 1;
        match spec_sum(map, fuel, k) {
            None => None,
            Some(before) => {
                let of_parent = if first_mention_of_parent(map, k) {
                    spec_tally(map, map[k].parent, fuel, map.len() as int)
                } else {
                    Some(0nat)
                };
                let of_child = if first_mention_of_child(map, k) {
                    spec_tally(map, map[k].child, fuel, map.len() as int)
                } else {
                    Some(0nat)
                };
                match (of_parent, of_child) {
                    (Some(p), Some(c)) => Some(before + p + c),
                    _ => None,
                }
            },
        }
    }
}

/// A sum over more lines is no less.
proof fn lemma_sum_grows(map: Seq<OrbitView>, fuel: nat, upto: int, more: int)
    requires
        upto <= more,
    ensures
        match spec_sum(map, fuel, more) {
            None => true,
            Some(all) => match spec_sum(map, fuel, upto) {
                None => false,
                Some(some) => some <= all,
            },
        },
    decreases more - upto,
{
    if upto < more {
        lemma_sum_grows(map, fuel, upto, more - 1);
    }
}

/// Whether `name` is mentioned in one of the first `upto` lines of `map`.
fn mentioned(map: &Vec<Orbit>, name: &Vec<u8>, upto: usize) -> (r: bool)
    requires
        upto <= map@.len(),
    ensures
        r == exists|j: int|
            0 <= j < upto && ((#[trigger] orbits(map@)[j]).child == name@ || orbits(
                map@,
            )[j].parent == name@),
{
    let mut j: usize = 0;
    while j < upto
        invariant
            j <= upto <= map@.len(),
            forall|i: int|
                0 <= i < j ==> (#[trigger] orbits(map@)[i]).child != name@ && orbits(
                    map@,
                )[i].parent != name@,
        decreases upto - j,
    {
        if same_name(&map[j].child, name) || same_name(&map[j].parent, name) {
            assert(orbits(map@)[j as int].child == name@ || orbits(map@)[j as int].parent
                == name@);
            return true;
        }
        j = j + 1;
    }
    false
}

/// The number of orbits, direct and indirect, on the map. Returns `None`
/// when the orbits go deeper than `fuel` or the number does not fit in 64
/// bits.
pub fn sum_count_descendants(map: &Vec<Orbit>, fuel: usize) -> (r: Option<u64>)
    ensures
        tallied(spec_sum(orbits(map@), fuel as nat, map@.len() as int), r),
{
    let mut total: u64 = 0;
    let mut k: usize = 0;
    while k < map.len()
        invariant
            k <= map@.len(),
            spec_sum(orbits(map@), fuel as nat, k as int) == Some(total as nat),
        decreases map@.len() - k,
    {
        let ghost m = orbits(map@);
        let new_parent: bool = !same_name(&map[k].parent, &map[k].child) && !mentioned(
            map,
            &map[k].parent,
            k,
        );
        let new_child: bool = !mentioned(map, &map[k].child, k);
        assert(new_parent == first_mention_of_parent(m, k as int));
        assert(new_child == first_mention_of_child(m, k as int));
        let of_parent: Option<u64> = if new_parent {
            tally_descendants_recursive(map, &map[k].parent, fuel)
        } else {
            Some(0)
        };
        let of_child: Option<u64> = if new_child {
            tally_descendants_recursive(map, &map[k].child, fuel)
        } else {
            Some(0)
        };
        let next: Option<u64> = match (of_parent, of_child) {
            (Some(p), Some(c)) => match total.checked_add(p) {
                Some(t) => t.checked_add(c),
                None => None,
            },
            _ => None,
        };
        match next {
            Some(t) => {
                total = t;
            },
            None => {
                proof {
                    lemma_sum_grows(m, fuel as nat, k + 1, map@.len() as int);
                }
                return None;
            },
        }
        k = k + 1;
    }
    Some(total)
}

/// The number of places at the start of `a` and `b`, before `upto`, at
/// which both hold the same name. Places past a difference count too.
pub open spec fn spec_common(a: Seq<Seq<u8>>, b: Seq<Seq<u8>>, upto: int) -> nat
    decreases upto,
{
    if upto <= 0 {
        0
    } else {
        spec_common(a, b, upto - 1) + if a[upto - 1] == b[upto - 1] {
            1nat
        } else {
            0nat
        }
    }
}

/// The number of places at which both paths hold the same name, as far as
/// both go.
pub fn common(a: &Vec<Vec<u8>>, b: &Vec<Vec<u8>>) -> (r: usize)
    ensures
        r == spec_common(
            names(a@),
            names(b@),
            if a@.len() <= b@.len() {
                a@.len() as int
            } else {
                b@.len() as int
            },
        ),
        r <= a@.len(),
        r <= b@.len(),
{
    let n: usize = if a.len() <= b.len() {
        a.len()
    } else {
        b.len()
    };
    let mut r: usize = 0;
    let mut i: usize = 0;
    while i < n
        invariant
            i <= n,
            n <= a@.len(),
            n <= b@.len(),
            r <= i,
            r == spec_common(names(a@), names(b@), i as int),
        decreases n - i,
    {
        if same_name(&a[i], &b[i]) {
            r = r + 1;
        }
        i = i + 1;
    }
    r
}

/// The number of transfers between the object that `you` orbits and the one
/// that `santa` orbits: the objects on either path from `COM` that are not
/// on both. Returns `None` when one of them does not reach `COM` within
/// `fuel` orbits.
pub fn part2(map: &Vec<Orbit>, you: &Vec<u8>, santa: &Vec<u8>, fuel: usize) -> (r: Option<usize>)
    requires
        fuel <= usize::MAX / 2,
    ensures
        match (
            spec_ancestors(orbits(map@), santa@, fuel as nat),
            spec_ancestors(orbits(map@), you@, fuel as nat),
        ) {
            (Some(s), Some(y)) => {
                let shared = spec_common(
                    s.reverse(),
                    y.reverse(),
                    if s.len() <= y.len() {
                        s.len() as int
                    } else {
                        y.len() as int
                    },
                );
                r == Some((s.len() - shared + y.len() - shared) as usize)
            },
            _ => r.is_none(),
        },
{
    let santa_path: Vec<Vec<u8>> = match path_to(santa, map, fuel) {
        Some(path) => path,
        None => {
            return None;
        },
    };
    let you_path: Vec<Vec<u8>> = match path_to(you, map, fuel) {
        Some(path) => path,
        None => {
            return None;
        },
    };
    let shared: usize = common(&santa_path, &you_path);
    proof {
        assert(names(santa_path@).reverse().reverse() =~= names(santa_path@));
        assert(names(you_path@).reverse().reverse() =~= names(you_path@));
    }
    proof {
        lemma_ancestors_bound(orbits(map@), santa@, fuel as nat);
        lemma_ancestors_bound(orbits(map@), you@, fuel as nat);
    }
    Some(santa_path.len() - shared + (you_path.len() - shared))
}

/// An object has no more ancestors than the fuel allows.
proof fn lemma_ancestors_bound(map: Seq<OrbitView>, name: Seq<u8>, fuel: nat)
    ensures
        match spec_ancestors(map, name, fuel) {
            Some(above) => above.len() <= fuel,
            None => true,
        },
    decreases fuel,
{
    if name != com() && fuel > 0 {
        let k = spec_parent_line(map, name, map.len() as int);
        if k >= 0 {
            lemma_ancestors_bound(map, map[k].parent, (fuel - 1) as nat);
        }
    }
}

} // verus!
