use vstd::prelude::*;
use crate::puzzles::paths::{
    gives_up, is_shortest, lemma_reach_nonneg, names, reachable, reaches, shortest, shortest_to,
    Edge, Graph,
};

verus! {

/// The number of places where a robot can stand: the 26 keys and the four
/// entrances.
pub const NODES: usize = 30;

/// Whether `c` is a key: a small letter.
pub open spec fn is_key(c: char) -> bool {
    'a' <= c <= 'z'
}

/// Whether `c` is a door: a capital letter.
pub open spec fn is_door(c: char) -> bool {
    'A' <= c <= 'Z'
}

/// The number of the place that `c` marks: 0 to 25 for the keys `a` to `z`,
/// and 26 to 29 for the entrances `@`, `*`, `~` and `?`.
pub open spec fn spec_node_id(c: char) -> Option<usize> {
    if is_key(c) {
        Some((c as u32 - 'a' as u32) as usize)
    } else if c == '@' {
        Some(26)
    } else if c == '*' {
        Some(27)
    } else if c == '~' {
        Some(28)
    } else if c == '?' {
        Some(29)
    } else {
        None
    }
}

/// The set that holds the key which opens the door `c`, as a bit mask, or
/// the empty set if `c` is no door.
pub open spec fn door_bit(c: char) -> u32 {
    if is_door(c) {
        1u32 << ((c as u32 - 'A' as u32) as u32)
    } else {
        0
    }
}

/// The number of the place that `c` marks.
pub fn node_id(c: char) -> (r: Option<usize>)
    ensures
        r == spec_node_id(c),
        r.is_some() ==> r.unwrap() < 30,
{
    if 'a' <= c && c <= 'z' {
        Some((c as u32 - 'a' as u32) as usize)
    } else if c == '@' {
        Some(26)
    } else if c == '*' {
        Some(27)
    } else if c == '~' {
        Some(28)
    } else if c == '?' {
        Some(29)
    } else {
        None
    }
}

fn door_mask(c: char) -> (r: u32)
    ensures
        r == door_bit(c),
{
    if 'A' <= c && c <= 'Z' {
        let shift: u32 = c as u32 - 'A' as u32;
        1u32 << shift
    } else {
        0
    }
}

/// The rows of `grid` as sequences.
pub open spec fn rows(grid: Vec<Vec<char>>) -> Seq<Seq<char>> {
    Seq::new(grid@.len(), |y: int| grid@[y]@)
}

/// Whether column `c.0` of row `c.1` is a cell of the picture and no wall.
pub open spec fn passable(grid: Seq<Seq<char>>, c: (int, int)) -> bool {
    0 <= c.1 < grid.len() && 0 <= c.0 < grid[c.1].len() && grid[c.1][c.0] != '#'
}

/// Whether the two cells are next to each other in a row or a column.
pub open spec fn beside(a: (int, int), b: (int, int)) -> bool {
    ||| (a.0 == b.0 && (a.1 + 1 == b.1 || b.1 + 1 == a.1))
    ||| (a.1 == b.1 && (a.0 + 1 == b.0 || b.0 + 1 == a.0))
}

/// Whether `p` is a walk through the picture that enters no cell twice and
/// no wall, and passes no key between its first and its last cell.
pub open spec fn walk(grid: Seq<Seq<char>>, p: Seq<(int, int)>) -> bool {
    &&& p.len() >= 1
    &&& p.no_duplicates()
    &&& forall|i: int| 0 <= i < p.len() ==> passable(grid, #[trigger] p[i])
    &&& forall|i: int| 0 <= i && i + 1 < p.len() ==> beside(#[trigger] p[i], p[i + 1])
    &&& forall|i: int| 0 < i && i + 1 < p.len() ==> !is_key(grid[(#[trigger] p[i]).1][p[i].0])
}

/// Whether `p` is a walk of at least one step that ends on a key.
pub open spec fn route(grid: Seq<Seq<char>>, p: Seq<(int, int)>) -> bool {
    walk(grid, p) && p.len() >= 2 && is_key(grid[p.last().1][p.last().0])
}

/// The keys that open the doors among the cells of `p` from the second to
/// the one before `upto`, as a bit mask.
pub open spec fn spec_doors(grid: Seq<Seq<char>>, p: Seq<(int, int)>, upto: int) -> u32
    decreases upto,
{
    if upto <= 1 {
        0
    } else {
        spec_doors(grid, p, upto - 1) | door_bit(grid[p[upto - 1].1][p[upto - 1].0])
    }
}

/// A way from a place to a key: the key, the number of steps, and the keys
/// that open the doors on the way.
#[derive(Debug, Clone, Copy, PartialEq, Eq)]
pub struct Dest {
    pub node: usize,
    pub steps: usize,
    pub needs_keys: u32,
}

/// Whether `d` says of the route `q` what there is to say.
pub open spec fn sums_up(grid: Seq<Seq<char>>, q: Seq<(int, int)>, d: Dest) -> bool {
    &&& spec_node_id(grid[q.last().1][q.last().0]) == Some(d.node)
    &&& d.steps == q.len() - 1
    &&& d.needs_keys == spec_doors(grid, q, q.len() as int)
}

/// Whether `q` goes on from `p`: it is longer and starts with `p`.
pub open spec fn goes_on(q: Seq<(int, int)>, p: Seq<(int, int)>) -> bool {
    q.len() > p.len() && q.take(p.len() as int) == p
}

/// The cell next to `c` in direction `d`: right, left, down, up.
pub open spec fn neighbour(c: (int, int), d: int) -> (int, int) {
    if d == 0 {
        (c.0 + 1, c.1)
    } else if d == 1 {
        (c.0 - 1, c.1)
    } else if d == 2 {
        (c.0, c.1 + 1)
    } else {
        (c.0, c.1 - 1)
    }
}

/// Whether `q` is a route that goes on from `p` in one of the directions
/// from `lo` up to but not including `hi`.
pub open spec fn leads(grid: Seq<Seq<char>>, q: Seq<(int, int)>, p: Seq<(int, int)>, lo: int, hi: int)
    -> bool {
    &&& route(grid, q)
    &&& goes_on(q, p)
    &&& exists|d: int| lo <= d < hi && q[p.len() as int] == #[trigger] neighbour(p.last(), d)
}

/// Whether `found` holds what there is to say of the routes that go on from
/// `p` in the directions from `lo` up to `hi`, and nothing else.
pub open spec fn lists_routes(
    grid: Seq<Seq<char>>,
    p: Seq<(int, int)>,
    lo: int,
    hi: int,
    found: Seq<Dest>,
) -> bool {
    &&& forall|k: int| 0 <= k < found.len() ==> backed(grid, p, lo, hi, #[trigger] found[k])
    &&& forall|q: Seq<(int, int)>| #[trigger]
        leads(grid, q, p, lo, hi) ==> covered(grid, q, found)
}

/// Whether `d` says what there is to say of some route that goes on from
/// `p` in one of the directions from `lo` up to `hi`.
pub open spec fn backed(grid: Seq<Seq<char>>, p: Seq<(int, int)>, lo: int, hi: int, d: Dest)
    -> bool {
    exists|q: Seq<(int, int)>| #[trigger] leads(grid, q, p, lo, hi) && sums_up(grid, q, d)
}

/// Whether one of `found` says what there is to say of the route `q`.
pub open spec fn covered(grid: Seq<Seq<char>>, q: Seq<(int, int)>, found: Seq<Dest>) -> bool {
    exists|k: int| 0 <= k < found.len() && sums_up(grid, q, #[trigger] found[k])
}

/// The cells of `path` as pairs of integers.
pub open spec fn cells(path: Seq<(usize, usize)>) -> Seq<(int, int)> {
    Seq::new(path.len(), |i: int| (path[i].0 as int, path[i].1 as int))
}

/// Whether `visited` marks the cells of `path` and no others.
pub open spec fn marks_path(grid: Seq<Seq<char>>, visited: Seq<Seq<bool>>, path: Seq<(int, int)>)
    -> bool {
    &&& visited.len() == grid.len()
    &&& forall|y: int| 0 <= y < grid.len() ==> (#[trigger] visited[y]).len() == grid[y].len()
    &&& forall|x: int, y: int|
        0 <= y < grid.len() && 0 <= x < grid[y].len() ==> (#[trigger] visited[y][x]
            == path.contains((x, y)))
}

/// The rows of `mask` as sequences.
pub open spec fn mask_rows(mask: Vec<Vec<bool>>) -> Seq<Seq<bool>> {
    Seq::new(mask@.len(), |y: int| mask@[y]@)
}

/// Whether `p` is a walk that has passed no key since its first cell.
pub open spec fn open_walk(grid: Seq<Seq<char>>, p: Seq<(int, int)>) -> bool {
    walk(grid, p) && (p.len() >= 2 ==> !is_key(grid[p.last().1][p.last().0]))
}

/// Whether some walk goes on from `p` for more than `fuel` steps.
pub open spec fn too_long(grid: Seq<Seq<char>>, p: Seq<(int, int)>, fuel: int) -> bool {
    exists|q: Seq<(int, int)>| #[trigger] walk(grid, q) && goes_on(q, p) && q.len() > p.len() + fuel
}

/// The doors on the way do not depend on how the way goes on.
proof fn lemma_doors_prefix(grid: Seq<Seq<char>>, q: Seq<(int, int)>, p: Seq<(int, int)>, k: int)
    requires
        q.len() >= p.len(),
        q.take(p.len() as int) == p,
        k <= p.len(),
    ensures
        spec_doors(grid, q, k) == spec_doors(grid, p, k),
    decreases k,
{
    if k > 1 {
        lemma_doors_prefix(grid, q, p, k - 1);
        assert(q.take(p.len() as int)[k - 1] == q[k - 1]);
    }
}

/// What is listed for some directions and what is listed for the next
/// directions is together what is listed for all of them.
proof fn lemma_join(
    grid: Seq<Seq<char>>,
    p: Seq<(int, int)>,
    lo: int,
    mid: int,
    hi: int,
    a: Seq<Dest>,
    b: Seq<Dest>,
)
    requires
        lo <= mid <= hi,
        lists_routes(grid, p, lo, mid, a),
        lists_routes(grid, p, mid, hi, b),
    ensures
        lists_routes(grid, p, lo, hi, a + b),
{
    let both = a + b;
    assert forall|k: int| 0 <= k < both.len() implies backed(grid, p, lo, hi, #[trigger] both[k]) by {
        if k < a.len() {
            assert(both[k] == a[k]);
            assert(backed(grid, p, lo, mid, a[k]));
            let q = choose|q: Seq<(int, int)>| #[trigger]
                leads(grid, q, p, lo, mid) && sums_up(grid, q, a[k]);
            let d = choose|d: int| lo <= d < mid && q[p.len() as int] == #[trigger] neighbour(p.last(), d);
            assert(lo <= d < hi && q[p.len() as int] == neighbour(p.last(), d));
            assert(leads(grid, q, p, lo, hi));
        } else {
            assert(both[k] == b[k - a.len()]);
            assert(backed(grid, p, mid, hi, b[k - a.len()]));
            let q = choose|q: Seq<(int, int)>| #[trigger]
                leads(grid, q, p, mid, hi) && sums_up(grid, q, b[k - a.len()]);
            let d = choose|d: int| mid <= d < hi && q[p.len() as int] == #[trigger] neighbour(p.last(), d);
            assert(lo <= d < hi && q[p.len() as int] == neighbour(p.last(), d));
            assert(leads(grid, q, p, lo, hi));
        }
    }
    assert forall|q: Seq<(int, int)>| #[trigger] leads(grid, q, p, lo, hi) implies covered(
        grid,
        q,
        both,
    ) by {
        let d = choose|d: int| lo <= d < hi && q[p.len() as int] == #[trigger] neighbour(p.last(), d);
        if d < mid {
            assert(lo <= d < mid && q[p.len() as int] == neighbour(p.last(), d));
            assert(leads(grid, q, p, lo, mid));
            assert(covered(grid, q, a));
            let k = choose|k: int| 0 <= k < a.len() && sums_up(grid, q, #[trigger] a[k]);
            assert(both[k] == a[k]);
            assert(0 <= k < both.len() && sums_up(grid, q, both[k]));
        } else {
            assert(mid <= d < hi && q[p.len() as int] == neighbour(p.last(), d));
            assert(leads(grid, q, p, mid, hi));
            assert(covered(grid, q, b));
            let k = choose|k: int| 0 <= k < b.len() && sums_up(grid, q, #[trigger] b[k]);
            assert(both[k + a.len()] == b[k]);
            assert(0 <= k + a.len() < both.len() && sums_up(grid, q, both[k + a.len()]));
        }
    }
}

/// No route goes on into a wall, off the picture or into its own way.
proof fn lemma_none(grid: Seq<Seq<char>>, p: Seq<(int, int)>, d: int)
    requires
        p.len() >= 1,
        !passable(grid, neighbour(p.last(), d)) || p.contains(neighbour(p.last(), d)),
    ensures
        lists_routes(grid, p, d, d + 1, Seq::empty()),
{
    assert forall|q: Seq<(int, int)>| #[trigger] leads(grid, q, p, d, d + 1) implies covered(
        grid,
        q,
        Seq::<Dest>::empty(),
    ) by {
        let n = neighbour(p.last(), d);
        let e = choose|e: int| d <= e < d + 1 && q[p.len() as int] == #[trigger] neighbour(p.last(), e);
        assert(q[p.len() as int] == n);
        assert(passable(grid, q[p.len() as int]));
        let i = choose|i: int| 0 <= i < p.len() && p[i] == n;
        assert(q.take(p.len() as int)[i] == q[i]);
        assert(q[i] == q[p.len() as int]);
    }
}

/// The walk `p` with one more cell that is free and next to its end is a
/// walk again.
proof fn lemma_step(grid: Seq<Seq<char>>, p: Seq<(int, int)>, d: int)
    requires
        open_walk(grid, p),
        0 <= d < 4,
        passable(grid, neighbour(p.last(), d)),
        !p.contains(neighbour(p.last(), d)),
    ensures
        walk(grid, p.push(neighbour(p.last(), d))),
        goes_on(p.push(neighbour(p.last(), d)), p),
{
    let n = neighbour(p.last(), d);
    let q = p.push(n);
    assert(q.take(p.len() as int) =~= p);
    assert forall|i: int, j: int| 0 <= i < q.len() && 0 <= j < q.len() && i != j implies q[i]
        != q[j] by {
        if i < p.len() && j < p.len() {
            assert(p[i] != p[j]);
        } else if i < p.len() {
            assert(p.contains(p[i]));
        } else {
            assert(p.contains(p[j]));
        }
    }
    assert forall|i: int| 0 <= i < q.len() implies passable(grid, #[trigger] q[i]) by {
        if i < p.len() {
            assert(passable(grid, p[i]));
        }
    }
    assert forall|i: int| 0 <= i && i + 1 < q.len() implies beside(#[trigger] q[i], q[i + 1]) by {
        if i + 1 < p.len() {
            assert(beside(p[i], p[i + 1]));
        }
    }
    assert forall|i: int| 0 < i && i + 1 < q.len() implies !is_key(
        grid[(#[trigger] q[i]).1][q[i].0],
    ) by {
        if i + 1 < p.len() {
            assert(!is_key(grid[p[i].1][p[i].0]));
        }
    }
}

/// Where the next cell holds a key, the one route that goes on that way
/// ends there.
proof fn lemma_key(grid: Seq<Seq<char>>, p: Seq<(int, int)>, d: int, dest: Dest)
    requires
        open_walk(grid, p),
        0 <= d < 4,
        passable(grid, neighbour(p.last(), d)),
        !p.contains(neighbour(p.last(), d)),
        is_key(grid[neighbour(p.last(), d).1][neighbour(p.last(), d).0]),
        spec_node_id(grid[neighbour(p.last(), d).1][neighbour(p.last(), d).0]) == Some(dest.node),
        dest.steps == p.len(),
        dest.needs_keys == spec_doors(grid, p, p.len() as int),
    ensures
        lists_routes(grid, p, d, d + 1, seq![dest]),
{
    let n = neighbour(p.last(), d);
    let q = p.push(n);
    lemma_step(grid, p, d);
    lemma_doors_prefix(grid, q, p, p.len() as int);
    assert(door_bit(grid[n.1][n.0]) == 0);
    let doors = spec_doors(grid, p, p.len() as int);
    assert(doors | 0u32 == doors) by (bit_vector);
    assert(q.len() >= 2);
    assert(spec_doors(grid, q, q.len() as int) == spec_doors(grid, q, q.len() - 1) | door_bit(
        grid[q[q.len() - 1].1][q[q.len() - 1].0],
    ));
    assert(sums_up(grid, q, dest));
    assert(route(grid, q));
    assert(q[p.len() as int] == neighbour(p.last(), d));
    assert(leads(grid, q, p, d, d + 1));
    assert(backed(grid, p, d, d + 1, seq![dest][0]));
    assert forall|r: Seq<(int, int)>| #[trigger] leads(grid, r, p, d, d + 1) implies covered(
        grid,
        r,
        seq![dest],
    ) by {
        let e = choose|e: int| d <= e < d + 1 && r[p.len() as int] == #[trigger] neighbour(p.last(), e);
        assert(r[p.len() as int] == n);
        if r.len() > p.len() + 1 {
            assert(!is_key(grid[r[p.len() as int].1][r[p.len() as int].0]));
        }
        assert(r =~= q) by {
            assert forall|i: int| 0 <= i < r.len() implies r[i] == q[i] by {
                if i < p.len() {
                    assert(r.take(p.len() as int)[i] == r[i]);
                }
            }
        }
        assert(sums_up(grid, r, seq![dest][0]));
    }
}

/// Where the next cell holds no key, the routes that go on that way are
/// those that go on from the walk with that cell at its end.
proof fn lemma_deeper(grid: Seq<Seq<char>>, p: Seq<(int, int)>, d: int, found: Seq<Dest>)
    requires
        open_walk(grid, p),
        0 <= d < 4,
        passable(grid, neighbour(p.last(), d)),
        !p.contains(neighbour(p.last(), d)),
        !is_key(grid[neighbour(p.last(), d).1][neighbour(p.last(), d).0]),
        lists_routes(grid, p.push(neighbour(p.last(), d)), 0, 4, found),
    ensures
        lists_routes(grid, p, d, d + 1, found),
{
    let n = neighbour(p.last(), d);
    let p2 = p.push(n);
    lemma_step(grid, p, d);
    assert forall|k: int| 0 <= k < found.len() implies backed(
        grid,
        p,
        d,
        d + 1,
        #[trigger] found[k],
    ) by {
        assert(backed(grid, p2, 0, 4, found[k]));
        let q = choose|q: Seq<(int, int)>| #[trigger]
            leads(grid, q, p2, 0, 4) && sums_up(grid, q, found[k]);
        assert(q.take(p.len() as int) =~= p) by {
            assert forall|i: int| 0 <= i < p.len() implies q[i] == p[i] by {
                assert(q.take(p2.len() as int)[i] == q[i]);
            }
        }
        assert(q.take(p2.len() as int)[p.len() as int] == q[p.len() as int]);
        assert(q[p.len() as int] == neighbour(p.last(), d));
        assert(leads(grid, q, p, d, d + 1));
    }
    assert forall|q: Seq<(int, int)>| #[trigger] leads(grid, q, p, d, d + 1) implies covered(
        grid,
        q,
        found,
    ) by {
        let e = choose|e: int| d <= e < d + 1 && q[p.len() as int] == #[trigger] neighbour(p.last(), e);
        assert(q[p.len() as int] == n);
        assert(q.len() > p.len() + 1);
        assert(q.take(p2.len() as int) =~= p2) by {
            assert forall|i: int| 0 <= i < p2.len() implies q[i] == p2[i] by {
                if i < p.len() {
                    assert(q.take(p.len() as int)[i] == q[i]);
                }
            }
        }
        assert(beside(q[p.len() as int], q[p.len() as int + 1]));
        let last = p2.last();
        let next = q[p2.len() as int];
        assert(next == neighbour(last, 0) || next == neighbour(last, 1) || next == neighbour(
            last,
            2,
        ) || next == neighbour(last, 3));
        let f = if next == neighbour(last, 0) {
            0int
        } else if next == neighbour(last, 1) {
            1int
        } else if next == neighbour(last, 2) {
            2int
        } else {
            3int
        };
        assert(0 <= f < 4 && q[p2.len() as int] == neighbour(p2.last(), f));
        assert(leads(grid, q, p2, 0, 4));
    }
}

/// The cell next to `at` in direction `d`, if it is a cell of the picture
/// and no wall.
fn step_to(grid: &Vec<Vec<char>>, at: (usize, usize), d: usize) -> (r: Option<(usize, usize)>)
    requires
        d < 4,
    ensures
        match r {
            Some(n) => (n.0 as int, n.1 as int) == neighbour((at.0 as int, at.1 as int), d as int)
                && passable(rows(*grid), (n.0 as int, n.1 as int)),
            None => !passable(rows(*grid), neighbour((at.0 as int, at.1 as int), d as int)),
        },
{
    let (x, y): (usize, usize) = at;
    let n: (usize, usize) = if d == 0 {
        if x == usize::MAX {
            if y < grid.len() {
                let width: usize = grid[y].len();
                assert(rows(*grid)[y as int].len() == width);
            }
            return None;
        }
        (x + 1, y)
    } else if d == 1 {
        if x == 0 {
            return None;
        }
        (x - 1, y)
    } else if d == 2 {
        if y == usize::MAX {
            let height: usize = grid.len();
            assert(rows(*grid).len() == height);
            return None;
        }
        (x, y + 1)
    } else {
        if y == 0 {
            return None;
        }
        (x, y - 1)
    };
    if n.1 >= grid.len() {
        return None;
    }
    if n.0 >= grid[n.1].len() {
        return None;
    }
    if grid[n.1][n.0] == '#' {
        return None;
    }
    Some(n)
}

/// After a push a sequence holds what it held before and the new element.
proof fn lemma_push_cells(before: Seq<(int, int)>, x: (int, int))
    ensures
        forall|b: (int, int)| before.push(x).contains(b) <==> before.contains(b) || b == x,
{
    let after = before.push(x);
    assert forall|b: (int, int)| after.contains(b) <==> before.contains(b) || b == x by {
        if after.contains(b) {
            let i = choose|i: int| 0 <= i < after.len() && after[i] == b;
            if i < before.len() {
                assert(before[i] == b);
            }
        }
        if before.contains(b) {
            let i = choose|i: int| 0 <= i < before.len() && before[i] == b;
            assert(after[i] == b);
        }
        if b == x {
            assert(after[after.len() - 1] == b);
        }
    }
}

/// Appends to `out` what there is to say of every route that goes on from
/// `path`. Returns whether none of them goes on for more than `fuel` steps
/// before it meets a key.
#[verifier::rlimit(40)]
fn explore(
    grid: &Vec<Vec<char>>,
    path: &mut Vec<(usize, usize)>,
    visited: &mut Vec<Vec<bool>>,
    doors: u32,
    out: &mut Vec<Dest>,
    fuel: usize,
) -> (ok: bool)
    requires
        open_walk(rows(*grid), cells(old(path)@)),
        marks_path(rows(*grid), mask_rows(*old(visited)), cells(old(path)@)),
        doors == spec_doors(rows(*grid), cells(old(path)@), old(path)@.len() as int),
    ensures
        final(path)@ == old(path)@,
        mask_rows(*final(visited)) == mask_rows(*old(visited)),
        final(out)@.len() >= old(out)@.len(),
        final(out)@.take(old(out)@.len() as int) == old(out)@,
        ok ==> lists_routes(
            rows(*grid),
            cells(old(path)@),
            0,
            4,
            final(out)@.skip(old(out)@.len() as int),
        ),
        !ok ==> too_long(rows(*grid), cells(old(path)@), fuel as int),
    decreases fuel,
{
    let ghost g = rows(*grid);
    let ghost p = cells(path@);
    let ghost base = out@.len() as int;
    let at: (usize, usize) = path[path.len() - 1];
    assert(p.last() == (at.0 as int, at.1 as int));
    let mut d: usize = 0;
    proof {
        assert(out@.skip(base) =~= Seq::<Dest>::empty());
        assert(out@.take(base) =~= out@);
        lemma_nothing(g, p);
    }
    while d < 4
        invariant
            d <= 4,
            g == rows(*grid),
            p == cells(path@),
            path@ == old(path)@,
            mask_rows(*visited) == mask_rows(*old(visited)),
            open_walk(g, p),
            marks_path(g, mask_rows(*visited), p),
            doors == spec_doors(g, p, p.len() as int),
            p.last() == (at.0 as int, at.1 as int),
            base == old(out)@.len(),
            out@.len() >= base,
            out@.take(base) == old(out)@,
            lists_routes(g, p, 0, d as int, out@.skip(base)),
        decreases 4 - d,
    {
        let ghost found = out@.skip(base);
        let ghost dir = d as int;
        match step_to(grid, at, d) {
            None => {
                proof {
                    lemma_none(g, p, dir);
                    lemma_join(g, p, 0, dir, dir + 1, found, Seq::empty());
                    assert(found + Seq::<Dest>::empty() =~= found);
                }
            },
            Some(n) => {
                let ghost cell = (n.0 as int, n.1 as int);
                assert(mask_rows(*visited)[n.1 as int].len() == g[n.1 as int].len());
                if visited[n.1][n.0] {
                    proof {
                        assert(mask_rows(*visited)[n.1 as int][n.0 as int]);
                        assert(p.contains(cell));
                        lemma_none(g, p, dir);
                        lemma_join(g, p, 0, dir, dir + 1, found, Seq::empty());
                        assert(found + Seq::<Dest>::empty() =~= found);
                    }
                } else {
                    let c: char = grid[n.1][n.0];
                    assert(c == g[cell.1][cell.0]);
                    assert(!mask_rows(*visited)[n.1 as int][n.0 as int]);
                    assert(!p.contains(cell));
                    match node_id(c) {
                        Some(id) => {
                            if 'a' <= c && c <= 'z' {
                                let dest = Dest { node: id, steps: path.len(), needs_keys: doors };
                                out.push(dest);
                                proof {
                                    lemma_key(g, p, dir, dest);
                                    lemma_join(g, p, 0, dir, dir + 1, found, seq![dest]);
                                    assert(out@.skip(base) =~= found + seq![dest]);
                                    assert(out@.take(base) =~= old(out)@);
                                }
                                d = d + 1;
                                continue;
                            }
                        },
                        None => {},
                    }
                    assert(!is_key(c));
                    if fuel == 0 {
                        proof {
                            lemma_step(g, p, dir);
                        }
                        return false;
                    }
                    let ghost mask_before = mask_rows(*visited);
                    let ghost out_before = out@;
                    assert(mask_before[n.1 as int].len() == g[n.1 as int].len());
                    visited[n.1][n.0] = true;
                    proof {
                        assert(mask_rows(*visited).len() == mask_before.len());
                        assert forall|y: int| 0 <= y < mask_before.len() implies (
                        #[trigger] mask_rows(*visited)[y]).len() == mask_before[y].len() by {}
                        assert forall|x: int, y: int|
                            0 <= y < mask_before.len() && 0 <= x < mask_before[y].len() && !(y
                                == n.1 && x == n.0) implies #[trigger] mask_rows(*visited)[y][x]
                            == mask_before[y][x] by {}
                    }
                    path.push(n);
                    let deeper_doors: u32 = doors | door_mask(c);
                    proof {
                        let p2 = p.push(cell);
                        lemma_step(g, p, dir);
                        lemma_push_cells(p, cell);
                        assert(cells(path@) =~= p2);
                        lemma_doors_prefix(g, p2, p, p.len() as int);
                        assert(open_walk(g, p2));
                        assert(marks_path(g, mask_rows(*visited), p2)) by {
                            assert forall|y: int| 0 <= y < g.len() implies (
                            #[trigger] mask_rows(*visited)[y]).len() == g[y].len() by {
                                assert(mask_before[y].len() == g[y].len());
                            }
                            assert forall|x: int, y: int|
                                0 <= y < g.len() && 0 <= x < g[y].len() implies (
                            #[trigger] mask_rows(*visited)[y][x] == p2.contains((x, y))) by {
                                assert(mask_before[y][x] == p.contains((x, y)));
                            }
                        }
                    }
                    let ghost mask_mid = mask_rows(*visited);
                    let ok: bool = explore(grid, path, visited, deeper_doors, out, fuel - 1);
                    path.pop();
                    proof {
                        assert(mask_rows(*visited) == mask_mid);
                        assert(mask_rows(*visited)[n.1 as int].len() == mask_mid[n.1 as int].len());
                        assert(mask_mid[n.1 as int].len() == g[n.1 as int].len());
                    }
                    let ghost held = mask_rows(*visited);
                    visited[n.1][n.0] = false;
                    proof {
                        assert(path@ =~= old(path)@);
                        assert(mask_rows(*visited) =~= mask_before) by {
                            assert(mask_rows(*visited).len() == mask_before.len());
                            assert forall|y: int| 0 <= y < mask_before.len() implies (
                            #[trigger] mask_rows(*visited)[y]) =~= mask_before[y] by {
                                assert(held[y] == mask_mid[y]);
                                assert(mask_mid[y].len() == mask_before[y].len());
                                assert forall|x: int| 0 <= x < mask_before[y].len() implies mask_rows(
                                    *visited,
                                )[y][x] == mask_before[y][x] by {
                                    if y == n.1 && x == n.0 {
                                    } else {
                                        assert(mask_rows(*visited)[y][x] == held[y][x]);
                                        assert(mask_mid[y][x] == mask_before[y][x]);
                                    }
                                }
                            }
                        }
                        assert(out@.take(base) =~= old(out)@) by {
                            assert(out@.take(out_before.len() as int) == out_before);
                            assert forall|i: int| 0 <= i < base implies out@[i] == old(out)@[i] by {
                                assert(out@.take(out_before.len() as int)[i] == out@[i]);
                                assert(out_before.take(base)[i] == out_before[i]);
                            }
                        }
                    }
                    if !ok {
                        proof {
                            let p2 = p.push(cell);
                            let q = choose|q: Seq<(int, int)>| #[trigger]
                                walk(g, q) && goes_on(q, p2) && q.len() > p2.len() + (fuel - 1);
                            assert(q.take(p.len() as int) =~= p) by {
                                assert forall|i: int| 0 <= i < p.len() implies q[i] == p[i] by {
                                    assert(q.take(p2.len() as int)[i] == q[i]);
                                }
                            }
                            assert(walk(g, q) && goes_on(q, p) && q.len() > p.len() + fuel);
                        }
                        return false;
                    }
                    proof {
                        let deeper = out@.skip(out_before.len() as int);
                        lemma_deeper(g, p, dir, deeper);
                        lemma_join(g, p, 0, dir, dir + 1, found, deeper);
                        assert(out@.skip(base) =~= found + deeper) by {
                            assert forall|i: int| 0 <= i < found.len() implies out@[base + i]
                                == found[i] by {
                                assert(out@.take(out_before.len() as int)[base + i] == out@[base
                                    + i]);
                            }
                        }
                    }
                }
            },
        }
        d = d + 1;
    }
    true
}

/// Nothing is listed for no directions.
proof fn lemma_nothing(grid: Seq<Seq<char>>, p: Seq<(int, int)>)
    ensures
        lists_routes(grid, p, 0, 0, Seq::empty()),
{
    assert forall|q: Seq<(int, int)>| #[trigger] leads(grid, q, p, 0, 0) implies covered(
        grid,
        q,
        Seq::<Dest>::empty(),
    ) by {
        let d = choose|d: int| 0 <= d < 0 && q[p.len() as int] == #[trigger] neighbour(p.last(), d);
    }
}

/// The walk that stands on `start` and has not moved yet.
pub open spec fn standing(start: (usize, usize)) -> Seq<(int, int)> {
    seq![(start.0 as int, start.1 as int)]
}

/// A mask with the shape of `grid` that marks no cell.
fn blank(grid: &Vec<Vec<char>>) -> (mask: Vec<Vec<bool>>)
    ensures
        mask_rows(mask).len() == rows(*grid).len(),
        forall|y: int|
            0 <= y < rows(*grid).len() ==> (#[trigger] mask_rows(mask)[y]).len() == rows(
                *grid,
            )[y].len(),
        forall|x: int, y: int|
            0 <= y < rows(*grid).len() && 0 <= x < rows(*grid)[y].len() ==> !(
            #[trigger] mask_rows(mask)[y][x]),
{
    let mut mask: Vec<Vec<bool>> = Vec::new();
    let mut y: usize = 0;
    while y < grid.len()
        invariant
            y <= grid@.len(),
            mask@.len() == y,
            forall|j: int| 0 <= j < y ==> (#[trigger] mask@[j])@.len() == grid@[j]@.len(),
            forall|j: int, x: int|
                0 <= j < y && 0 <= x < grid@[j]@.len() ==> !(#[trigger] mask@[j]@[x]),
        decreases grid@.len() - y,
    {
        let mut row: Vec<bool> = Vec::new();
        let mut x: usize = 0;
        while x < grid[y].len()
            invariant
                y < grid@.len(),
                x <= grid@[y as int]@.len(),
                row@.len() == x,
                forall|i: int| 0 <= i < x ==> !(#[trigger] row@[i]),
            decreases grid@[y as int]@.len() - x,
        {
            row.push(false);
            x = x + 1;
        }
        mask.push(row);
        y = y + 1;
    }
    mask
}

/// What there is to say of every route from `start` to a key: the key, the
/// number of steps and the keys that open the doors on the way. A route
/// enters no cell twice and passes no key before it ends. Returns `None`
/// when a walk goes on for more than `fuel` steps without meeting a key.
pub fn find_nearest_keys(grid: &Vec<Vec<char>>, start: (usize, usize), fuel: usize) -> (r: Option<
    Vec<Dest>,
>)
    ensures
        match r {
            Some(found) => lists_routes(rows(*grid), standing(start), 0, 4, found@),
            None => too_long(rows(*grid), standing(start), fuel as int),
        },
{
    let ghost g = rows(*grid);
    let ghost p = standing(start);
    let mut out: Vec<Dest> = Vec::new();
    let free: bool = start.1 < grid.len() && start.0 < grid[start.1].len()
        && grid[start.1][start.0] != '#';
    if !free {
        proof {
            assert forall|q: Seq<(int, int)>| #[trigger] leads(g, q, p, 0, 4) implies covered(
                g,
                q,
                out@,
            ) by {
                assert(q.take(1)[0] == q[0]);
                assert(passable(g, q[0]));
            }
        }
        return Some(out);
    }
    let mut visited: Vec<Vec<bool>> = blank(grid);
    let ghost clear = mask_rows(visited);
    assert(clear[start.1 as int].len() == g[start.1 as int].len());
    visited[start.1][start.0] = true;
    let mut path: Vec<(usize, usize)> = Vec::new();
    path.push(start);
    proof {
        assert(cells(path@) =~= p);
        assert(open_walk(g, p));
        assert(marks_path(g, mask_rows(visited), p)) by {
            assert forall|y: int| 0 <= y < g.len() implies (#[trigger] mask_rows(visited)[y]).len()
                == g[y].len() by {
                assert(clear[y].len() == g[y].len());
            }
            assert forall|x: int, y: int| 0 <= y < g.len() && 0 <= x < g[y].len() implies (
            #[trigger] mask_rows(visited)[y][x] == p.contains((x, y))) by {
                if x == start.0 && y == start.1 {
                    assert(p[0] == (x, y));
                } else {
                    assert(!clear[y][x]);
                }
            }
        }
    }
    let ok: bool = explore(grid, &mut path, &mut visited, 0, &mut out, fuel);
    if ok {
        assert(out@.skip(0) =~= out@);
        Some(out)
    } else {
        None
    }
}

/// Whether the two ways lead to the same key and need the same keys.
pub open spec fn same_way(a: Dest, b: Dest) -> bool {
    a.node == b.node && a.needs_keys == b.needs_keys
}

/// Whether one of `list` goes the same way as `d`.
pub open spec fn has_way(list: Seq<Dest>, d: Dest) -> bool {
    exists|k: int| 0 <= k < list.len() && same_way(d, #[trigger] list[k])
}

/// Whether `d` says what there is to say of the route `q` from `start`.
pub open spec fn tells(grid: Seq<Seq<char>>, start: (usize, usize), q: Seq<(int, int)>, d: Dest)
    -> bool {
    leads(grid, q, standing(start), 0, 4) && sums_up(grid, q, d)
}

/// Whether `list` holds, for each key and each set of keys needed on some
/// route from `start` to it, the least number of steps of such a route, and
/// nothing else, and nothing twice.
pub open spec fn nearest(grid: Seq<Seq<char>>, start: (usize, usize), list: Seq<Dest>) -> bool {
    &&& forall|k: int|
        0 <= k < list.len() ==> backed(grid, standing(start), 0, 4, #[trigger] list[k])
    &&& forall|k: int, q: Seq<(int, int)>, d: Dest|
        0 <= k < list.len() && #[trigger] tells(grid, start, q, d) && #[trigger] same_way(
            d,
            list[k],
        ) ==> list[k].steps <= d.steps
    &&& forall|q: Seq<(int, int)>, d: Dest| #[trigger]
        tells(grid, start, q, d) ==> has_way(list, d)
    &&& forall|i: int, j: int|
        0 <= i < j < list.len() ==> !#[trigger] same_way(list[i], list[j])
}

/// Whether `d` is among the first `upto` of `found`.
spec fn taken(found: Seq<Dest>, upto: int, d: Dest) -> bool {
    exists|i: int| 0 <= i < upto && #[trigger] found[i] == d
}

/// Whether `list` holds the least number of steps among the first `upto`
/// of `found` for each key and set of needed keys among them.
spec fn least_of(found: Seq<Dest>, upto: int, list: Seq<Dest>) -> bool {
    &&& forall|k: int| 0 <= k < list.len() ==> taken(found, upto, #[trigger] list[k])
    &&& forall|k: int, i: int|
        0 <= k < list.len() && 0 <= i < upto && #[trigger] same_way(found[i], list[k])
            ==> list[k].steps <= found[i].steps
    &&& forall|i: int| 0 <= i < upto ==> has_way(list, #[trigger] found[i])
    &&& forall|i: int, j: int|
        0 <= i < j < list.len() ==> !#[trigger] same_way(list[i], list[j])
}

/// The least entries stay the least when one more entry is looked at that
/// goes the same way as the entry at `a`, which it replaces if it is
/// shorter.
#[verifier::rlimit(60)]
proof fn lemma_least_better(found: Seq<Dest>, i: int, before: Seq<Dest>, a: int, after: Seq<Dest>)
    requires
        0 <= i < found.len(),
        0 <= a < before.len(),
        least_of(found, i, before),
        same_way(found[i], before[a]),
        after == if found[i].steps < before[a].steps {
            before.update(a, found[i])
        } else {
            before
        },
    ensures
        least_of(found, i + 1, after),
{
    let d = found[i];
    assert forall|j: int| 0 <= j < after.len() implies same_way(after[j], before[j])
        && after[j].steps <= before[j].steps by {}
    assert forall|k: int| 0 <= k < after.len() implies taken(found, i + 1, #[trigger] after[k]) by {
        if after[k] == before[k] {
            assert(taken(found, i, before[k]));
            let n = choose|n: int| 0 <= n < i && #[trigger] found[n] == before[k];
            assert(0 <= n < i + 1 && found[n] == after[k]);
        } else {
            assert(found[i] == after[k]);
        }
    }
    assert forall|k: int, n: int|
        0 <= k < after.len() && 0 <= n < i + 1 && #[trigger] same_way(
            found[n],
            after[k],
        ) implies after[k].steps <= found[n].steps by {
        assert(same_way(after[k], before[k]));
        assert(same_way(found[n], before[k]));
        if n < i {
            assert(before[k].steps <= found[n].steps);
        } else if k != a {
            if k < a {
                assert(!same_way(before[k], before[a]));
            } else {
                assert(!same_way(before[a], before[k]));
            }
        }
    }
    assert forall|n: int| 0 <= n < i + 1 implies has_way(after, #[trigger] found[n]) by {
        if n < i {
            assert(has_way(before, found[n]));
            let k = choose|k: int| 0 <= k < before.len() && same_way(found[n], #[trigger] before[k]);
            assert(same_way(after[k], before[k]));
            assert(same_way(found[n], after[k]));
        } else {
            assert(same_way(after[a], before[a]));
            assert(same_way(found[n], after[a]));
        }
    }
    assert forall|x: int, y: int| 0 <= x < y < after.len() implies !#[trigger] same_way(
        after[x],
        after[y],
    ) by {
        assert(same_way(after[x], before[x]));
        assert(same_way(after[y], before[y]));
        assert(!same_way(before[x], before[y]));
    }
}

/// The least entries stay the least when one more entry is looked at that
/// goes a new way and is put at their end.
#[verifier::rlimit(60)]
proof fn lemma_least_new(found: Seq<Dest>, i: int, before: Seq<Dest>)
    requires
        0 <= i < found.len(),
        least_of(found, i, before),
        !has_way(before, found[i]),
    ensures
        least_of(found, i + 1, before.push(found[i])),
{
    let d = found[i];
    let after = before.push(d);
    let last = before.len() as int;
    assert forall|k: int| 0 <= k < after.len() implies taken(found, i + 1, #[trigger] after[k]) by {
        if k < last {
            assert(taken(found, i, before[k]));
            let n = choose|n: int| 0 <= n < i && #[trigger] found[n] == before[k];
            assert(0 <= n < i + 1 && found[n] == after[k]);
        } else {
            assert(found[i] == after[k]);
        }
    }
    assert forall|k: int, n: int|
        0 <= k < after.len() && 0 <= n < i + 1 && #[trigger] same_way(
            found[n],
            after[k],
        ) implies after[k].steps <= found[n].steps by {
        if k < last {
            assert(after[k] == before[k]);
            if n < i {
                assert(before[k].steps <= found[n].steps);
            } else {
                assert(same_way(d, before[k]));
            }
        } else if n < i {
            assert(has_way(before, found[n]));
            let z = choose|z: int| 0 <= z < before.len() && same_way(found[n], #[trigger] before[z]);
            assert(same_way(d, before[z]));
        }
    }
    assert forall|n: int| 0 <= n < i + 1 implies has_way(after, #[trigger] found[n]) by {
        if n < i {
            assert(has_way(before, found[n]));
            let k = choose|k: int| 0 <= k < before.len() && same_way(found[n], #[trigger] before[k]);
            assert(after[k] == before[k]);
            assert(same_way(found[n], after[k]));
        } else {
            assert(same_way(found[n], after[last]));
        }
    }
    assert forall|x: int, y: int| 0 <= x < y < after.len() implies !#[trigger] same_way(
        after[x],
        after[y],
    ) by {
        assert(after[x] == before[x]);
        if y < last {
            assert(after[y] == before[y]);
            assert(!same_way(before[x], before[y]));
        } else {
            if same_way(after[x], after[y]) {
                assert(same_way(d, before[x]));
            }
        }
    }
}

/// For each key and set of needed keys among `found`, the entry with the
/// least number of steps.
#[verifier::rlimit(40)]
fn keep_least(found: &Vec<Dest>) -> (list: Vec<Dest>)
    ensures
        least_of(found@, found@.len() as int, list@),
{
    let mut list: Vec<Dest> = Vec::new();
    let mut i: usize = 0;
    while i < found.len()
        invariant
            i <= found@.len(),
            least_of(found@, i as int, list@),
        decreases found@.len() - i,
    {
        let d: Dest = found[i];
        let ghost before = list@;
        let mut k: usize = 0;
        let mut at: Option<usize> = None;
        while k < list.len()
            invariant
                k <= list@.len(),
                list@ == before,
                d == found@[i as int],
                match at {
                    Some(a) => a < list@.len() && same_way(d, list@[a as int]),
                    None => forall|j: int| 0 <= j < k ==> !same_way(d, #[trigger] list@[j]),
                },
            decreases list@.len() - k,
        {
            if at.is_none() && list[k].node == d.node && list[k].needs_keys == d.needs_keys {
                at = Some(k);
            }
            k = k + 1;
        }
        match at {
            Some(a) => {
                if d.steps < list[a].steps {
                    list.set(a, d);
                }
                proof {
                    lemma_least_better(found@, i as int, before, a as int, list@);
                }
            },
            None => {
                list.push(d);
                proof {
                    lemma_least_new(found@, i as int, before);
                }
            },
        }
        i = i + 1;
    }
    list
}

/// The least entries of a list of all routes are the nearest keys.
proof fn lemma_nearest(grid: Seq<Seq<char>>, start: (usize, usize), found: Seq<Dest>, list: Seq<Dest>)
    requires
        lists_routes(grid, standing(start), 0, 4, found),
        least_of(found, found.len() as int, list),
    ensures
        nearest(grid, start, list),
{
    let p = standing(start);
    assert forall|k: int| 0 <= k < list.len() implies backed(grid, p, 0, 4, #[trigger] list[k]) by {
        assert(taken(found, found.len() as int, list[k]));
        let i = choose|i: int| 0 <= i < found.len() && #[trigger] found[i] == list[k];
        assert(backed(grid, p, 0, 4, found[i]));
    }
    assert forall|k: int, q: Seq<(int, int)>, d: Dest|
        0 <= k < list.len() && #[trigger] tells(grid, start, q, d) && #[trigger] same_way(
            d,
            list[k],
        ) implies list[k].steps <= d.steps by {
        assert(covered(grid, q, found));
        let i = choose|i: int| 0 <= i < found.len() && sums_up(grid, q, #[trigger] found[i]);
        assert(same_way(found[i], list[k]));
        assert(found[i].steps == d.steps);
    }
    assert forall|q: Seq<(int, int)>, d: Dest| #[trigger] tells(grid, start, q, d) implies has_way(
        list,
        d,
    ) by {
        assert(covered(grid, q, found));
        let i = choose|i: int| 0 <= i < found.len() && sums_up(grid, q, #[trigger] found[i]);
        assert(has_way(list, found[i]));
        let k = choose|k: int| 0 <= k < list.len() && same_way(found[i], #[trigger] list[k]);
        assert(same_way(d, list[k]));
    }
}

/// The ways from each place to the keys nearest to it. A place that is not
/// in the picture has none.
pub struct Vault {
    pub edges: Vec<Option<Vec<Dest>>>,
}

impl Vault {
    /// The ways from the place `id`, if the place is in the picture.
    pub open spec fn ways(&self, id: int) -> Option<Seq<Dest>> {
        match self.edges@[id] {
            Some(list) => Some(list@),
            None => None,
        }
    }

    /// Whether there are `NODES` places and every way leads to one of them.
    pub open spec fn wf(&self) -> bool {
        &&& self.edges@.len() == 30
        &&& forall|id: int, k: int|
            0 <= id < 30 && self.ways(id).is_some() && 0 <= k < self.ways(id).unwrap().len() ==> (
            #[trigger] self.ways(id).unwrap()[k]).node < 30
    }
}

/// Whether column `x` of row `y` is the first cell of the picture, read row
/// by row, that marks the place `id`.
pub open spec fn is_first(grid: Seq<Seq<char>>, id: usize, x: int, y: int) -> bool {
    &&& 0 <= y < grid.len() && 0 <= x < grid[y].len()
    &&& spec_node_id(grid[y][x]) == Some(id)
    &&& forall|i: int, j: int|
        0 <= j < grid.len() && 0 <= i < grid[j].len() && (j < y || (j == y && i < x))
            ==> spec_node_id(#[trigger] grid[j][i]) != Some(id)
}

/// Whether no cell of the picture marks the place `id`.
pub open spec fn absent(grid: Seq<Seq<char>>, id: usize) -> bool {
    forall|i: int, j: int|
        0 <= j < grid.len() && 0 <= i < grid[j].len() ==> spec_node_id(#[trigger] grid[j][i])
            != Some(id)
}

/// The first cell of the picture, read row by row, that marks the place
/// `id`.
pub fn locate(grid: &Vec<Vec<char>>, id: usize) -> (r: Option<(usize, usize)>)
    ensures
        match r {
            Some((x, y)) => is_first(rows(*grid), id, x as int, y as int),
            None => absent(rows(*grid), id),
        },
{
    let mut y: usize = 0;
    while y < grid.len()
        invariant
            y <= grid@.len(),
            forall|i: int, j: int|
                0 <= j < y && 0 <= i < rows(*grid)[j].len() ==> spec_node_id(
                    #[trigger] rows(*grid)[j][i],
                ) != Some(id),
        decreases grid@.len() - y,
    {
        let mut x: usize = 0;
        while x < grid[y].len()
            invariant
                y < grid@.len(),
                x <= rows(*grid)[y as int].len(),
                forall|i: int, j: int|
                    0 <= j < y && 0 <= i < rows(*grid)[j].len() ==> spec_node_id(
                        #[trigger] rows(*grid)[j][i],
                    ) != Some(id),
                forall|i: int| 0 <= i < x ==> spec_node_id(#[trigger] rows(*grid)[y as int][i])
                    != Some(id),
            decreases rows(*grid)[y as int].len() - x,
        {
            let found: bool = match node_id(grid[y][x]) {
                Some(n) => n == id,
                None => false,
            };
            if found {
                return Some((x, y));
            }
            x = x + 1;
        }
        y = y + 1;
    }
    None
}

/// Whether `list` holds the nearest keys as they are seen from the first
/// cell of the place `id`.
pub open spec fn seen_from(grid: Seq<Seq<char>>, id: usize, list: Seq<Dest>) -> bool {
    exists|x: usize, y: usize| #[trigger]
        is_first(grid, id, x as int, y as int) && nearest(grid, (x, y), list)
}

/// Whether `ways` is what a map holds for the place `id`: nothing if the
/// place is not in the picture, and the nearest keys if it is.
pub open spec fn place_ok(grid: Seq<Seq<char>>, id: usize, ways: Option<Seq<Dest>>) -> bool {
    match ways {
        None => absent(grid, id),
        Some(list) => seen_from(grid, id, list) && forall|k: int|
            0 <= k < list.len() ==> (#[trigger] list[k]).node < 26,
    }
}

/// Whether `v` holds, for every place in the picture, the nearest keys as
/// they are seen from its first cell.
pub open spec fn maps(grid: Seq<Seq<char>>, v: Vault) -> bool {
    &&& v.edges@.len() == 30
    &&& forall|id: int| 0 <= id < 30 ==> place_ok(grid, id as usize, #[trigger] v.ways(id))
}

/// Whether from the first cell of some place a walk goes on for more than
/// `fuel` steps without meeting a key.
pub open spec fn endless(grid: Seq<Seq<char>>, fuel: int) -> bool {
    exists|id: usize, x: usize, y: usize| #[trigger]
        is_first(grid, id, x as int, y as int) && too_long(grid, standing((x, y)), fuel)
}

/// The nearest keys have numbers below 26.
proof fn lemma_nearest_nodes(grid: Seq<Seq<char>>, start: (usize, usize), list: Seq<Dest>)
    requires
        nearest(grid, start, list),
    ensures
        forall|k: int| 0 <= k < list.len() ==> (#[trigger] list[k]).node < 26,
{
    assert forall|k: int| 0 <= k < list.len() implies (#[trigger] list[k]).node < 26 by {
        assert(backed(grid, standing(start), 0, 4, list[k]));
        let q = choose|q: Seq<(int, int)>| #[trigger]
            leads(grid, q, standing(start), 0, 4) && sums_up(grid, q, list[k]);
        assert(is_key(grid[q.last().1][q.last().0]));
    }
}

/// Finds for every place in the picture the keys nearest to it. Returns
/// `None` when from some place a walk goes on for more than `fuel` steps
/// without meeting a key.
#[verifier::rlimit(40)]
pub fn make_map(grid: Vec<Vec<char>>, fuel: usize) -> (r: Option<Vault>)
    ensures
        match r {
            Some(v) => maps(rows(grid), v) && v.wf(),
            None => endless(rows(grid), fuel as int),
        },
{
    let ghost g = rows(grid);
    let mut v = Vault { edges: Vec::new() };
    let mut id: usize = 0;
    while id < NODES
        invariant
            id <= 30,
            g == rows(grid),
            v.edges@.len() == id,
            forall|n: int| 0 <= n < id ==> place_ok(g, n as usize, #[trigger] v.ways(n)),
        decreases NODES - id,
    {
        let ghost before = v;
        match locate(&grid, id) {
            None => {
                v.edges.push(None);
                assert(place_ok(g, id, v.ways(id as int)));
            },
            Some(start) => {
                let found: Vec<Dest> = match find_nearest_keys(&grid, start, fuel) {
                    Some(found) => found,
                    None => {
                        assert(is_first(g, id, start.0 as int, start.1 as int) && too_long(
                            g,
                            standing((start.0, start.1)),
                            fuel as int,
                        ));
                        return None;
                    },
                };
                let list: Vec<Dest> = keep_least(&found);
                proof {
                    lemma_nearest(g, start, found@, list@);
                    lemma_nearest_nodes(g, start, list@);
                    assert(is_first(g, id, start.0 as int, start.1 as int) && nearest(
                        g,
                        (start.0, start.1),
                        list@,
                    ));
                    assert(seen_from(g, id, list@));
                }
                v.edges.push(Some(list));
                assert(place_ok(g, id, v.ways(id as int)));
            },
        }
        proof {
            assert forall|n: int| 0 <= n < id implies place_ok(
                g,
                n as usize,
                #[trigger] v.ways(n),
            ) by {
                assert(v.edges@[n] == before.edges@[n]);
                assert(v.ways(n) == before.ways(n));
            }
        }
        id = id + 1;
    }
    proof {
        lemma_maps_wf(g, v);
    }
    Some(v)
}

/// A map is well formed.
proof fn lemma_maps_wf(grid: Seq<Seq<char>>, v: Vault)
    requires
        maps(grid, v),
    ensures
        v.wf(),
{
    assert forall|id: int, k: int|
        0 <= id < 30 && v.ways(id).is_some() && 0 <= k < v.ways(id).unwrap().len() implies (
    #[trigger] v.ways(id).unwrap()[k]).node < 30 by {
        assert(place_ok(grid, id as usize, v.ways(id)));
    }
}

/// The set of all keys of the places in the picture, as a bit mask.
pub open spec fn spec_keys(v: Vault, upto: int) -> u32
    decreases upto,
{
    if upto <= 0 {
        0
    } else if v.edges@[upto - 1].is_some() {
        spec_keys(v, upto - 1) | (1u32 << ((upto - 1) as u32))
    } else {
        spec_keys(v, upto - 1)
    }
}

impl Vault {
    /// The set of all keys in the picture, as a bit mask.
    pub fn keys(&self) -> (r: u32)
        requires
            self.wf(),
        ensures
            r == spec_keys(*self, 26),
    {
        let mut r: u32 = 0;
        let mut id: u32 = 0;
        while id < 26
            invariant
                id <= 26,
                self.edges@.len() == 30,
                r == spec_keys(*self, id as int),
            decreases 26 - id,
        {
            if self.edges[id as usize].is_some() {
                r = r | (1u32 << id);
            }
            id = id + 1;
        }
        r
    }
}

/// The robots' moves while the keys of `not_got_keys` are missing: a place
/// is the list of the places where the robots stand, and one move takes one
/// robot along a way that needs none of the missing keys.
pub struct KeyGraph<'a> {
    pub vault: &'a Vault,
    pub not_got_keys: u32,
}

impl<'a> KeyGraph<'a> {
    /// Whether robot `i` of `u` can take its way number `k`.
    pub open spec fn usable(&self, u: Seq<usize>, i: int, k: int) -> bool {
        &&& 0 <= i < u.len()
        &&& u[i] < 30
        &&& self.vault.ways(u[i] as int).is_some()
        &&& 0 <= k < self.vault.ways(u[i] as int).unwrap().len()
        &&& self.vault.ways(u[i] as int).unwrap()[k].needs_keys & self.not_got_keys == 0
    }

    /// The way number `k` of robot `i` of `u`.
    pub open spec fn way(&self, u: Seq<usize>, i: int, k: int) -> Dest {
        self.vault.ways(u[i] as int).unwrap()[k]
    }
}

impl<'a> Graph for KeyGraph<'a> {
    open spec fn valid(&self) -> bool {
        self.vault.wf()
    }

    open spec fn step(&self, u: Seq<usize>, v: Seq<usize>, w: int) -> bool {
        exists|i: int, k: int| #[trigger]
            self.usable(u, i, k) && v == u.update(i, self.way(u, i, k).node) && w == self.way(
                u,
                i,
                k,
            ).steps
    }

    /// A robot stands where the picture has no place.
    open spec fn stuck(&self, u: Seq<usize>) -> bool {
        exists|i: int| 0 <= i < u.len() && (#[trigger] u[i] >= 30 || self.vault.ways(u[i] as int).is_none())
    }

    proof fn lemma_costs(&self, u: Seq<usize>, v: Seq<usize>, w: int) {
    }

    fn successors(&self, u: &Vec<usize>) -> (r: Option<Vec<Edge>>) {
        let r = self.moves(u);
        proof {
            if r.is_some() {
                self.lemma_listed(u@, r.unwrap()@);
            }
        }
        r
    }
}

/// Whether `list` holds a move to `v` at the cost `w`.
pub open spec fn holds_move(list: Seq<Edge>, v: Seq<usize>, w: int) -> bool {
    exists|n: int| 0 <= n < list.len() && (#[trigger] list[n]).to@ == v && list[n].cost == w
}

impl<'a> KeyGraph<'a> {
    /// Whether every one of `list` is a move from `u`.
    pub open spec fn sound(&self, u: Seq<usize>, list: Seq<Edge>) -> bool {
        forall|n: int|
            0 <= n < list.len() ==> self.step(u, (#[trigger] list[n]).to@, list[n].cost as int)
    }

    /// Whether `list` holds the way number `k` of robot `j` of `u`, if that
    /// robot can take it.
    pub open spec fn has(&self, u: Seq<usize>, list: Seq<Edge>, j: int, k: int) -> bool {
        self.usable(u, j, k) ==> holds_move(
            list,
            u.update(j, self.way(u, j, k).node),
            self.way(u, j, k).steps as int,
        )
    }

    /// Whether `list` holds every way that one of the first `robots` robots
    /// of `u` can take, and of the next robot the first `ways`.
    pub open spec fn covers(&self, u: Seq<usize>, list: Seq<Edge>, robots: int, ways: int) -> bool {
        forall|j: int, k: int|
            0 <= j < robots || (j == robots && 0 <= k < ways) ==> #[trigger] self.has(u, list, j, k)
    }

    /// What held of a list holds of the list with one more move of robot
    /// `i` along its way number `k`.
    proof fn lemma_more(&self, u: Seq<usize>, before: Seq<Edge>, e: Edge, i: int, k: int, took: bool)
        requires
            self.sound(u, before),
            self.covers(u, before, i, k),
            took == self.usable(u, i, k),
            took ==> e.to@ == u.update(i, self.way(u, i, k).node) && e.cost == self.way(
                u,
                i,
                k,
            ).steps,
        ensures
            took ==> self.sound(u, before.push(e)) && self.covers(u, before.push(e), i, k + 1),
            !took ==> self.covers(u, before, i, k + 1),
    {
        if took {
            let list = before.push(e);
            let last = before.len() as int;
            assert(self.step(u, e.to@, e.cost as int));
            assert forall|n: int| 0 <= n < list.len() implies self.step(
                u,
                (#[trigger] list[n]).to@,
                list[n].cost as int,
            ) by {
                if n < last {
                    assert(list[n] == before[n]);
                }
            }
            assert forall|j: int, m: int|
                0 <= j < i || (j == i && 0 <= m < k + 1) implies #[trigger] self.has(
                u,
                list,
                j,
                m,
            ) by {
                if self.usable(u, j, m) {
                    if j == i && m == k {
                        assert(list[last].to@ == u.update(j, self.way(u, j, m).node));
                    } else {
                        assert(self.has(u, before, j, m));
                        let n = choose|n: int|
                            0 <= n < before.len() && (#[trigger] before[n]).to@ == u.update(
                                j,
                                self.way(u, j, m).node,
                            ) && before[n].cost == self.way(u, j, m).steps;
                        assert(list[n] == before[n]);
                    }
                }
            }
        } else {
            assert forall|j: int, m: int|
                0 <= j < i || (j == i && 0 <= m < k + 1) implies #[trigger] self.has(
                u,
                before,
                j,
                m,
            ) by {
                if !(j == i && m == k) {
                    assert(self.has(u, before, j, m));
                }
            }
        }
    }

    /// A list that is sound and covers all robots lists the moves.
    proof fn lemma_listed(&self, u: Seq<usize>, list: Seq<Edge>)
        requires
            self.sound(u, list),
            self.covers(u, list, u.len() as int, 0),
        ensures
            forall|k: int|
                0 <= k < list.len() ==> self.step(u, (#[trigger] list[k]).to@, list[k].cost as int),
            forall|v: Seq<usize>, w: int| #[trigger]
                self.step(u, v, w) ==> exists|k: int|
                    0 <= k < list.len() && (#[trigger] list[k]).to@ == v && list[k].cost <= w,
    {
        assert forall|v: Seq<usize>, w: int| #[trigger] self.step(u, v, w) implies exists|k: int|
            0 <= k < list.len() && (#[trigger] list[k]).to@ == v && list[k].cost <= w by {
            let (j, k) = choose|j: int, k: int| #[trigger]
                self.usable(u, j, k) && v == u.update(j, self.way(u, j, k).node) && w
                    == self.way(u, j, k).steps;
            assert(self.has(u, list, j, k));
            let n = choose|n: int|
                0 <= n < list.len() && (#[trigger] list[n]).to@ == u.update(
                    j,
                    self.way(u, j, k).node,
                ) && list[n].cost == self.way(u, j, k).steps;
            assert(list[n].to@ == v);
        }
    }

    /// The moves of the robots that stand at `u`, or `None` when one of
    /// them stands where the picture has no place.
    #[verifier::rlimit(40)]
    pub fn moves(&self, u: &Vec<usize>) -> (r: Option<Vec<Edge>>)
        requires
            self.vault.wf(),
        ensures
            r.is_none() ==> self.stuck(u@),
            r.is_some() ==> self.sound(u@, r.unwrap()@) && self.covers(
                u@,
                r.unwrap()@,
                u@.len() as int,
                0,
            ),
    {
        let mut list: Vec<Edge> = Vec::new();
        let mut i: usize = 0;
        while i < u.len()
            invariant
                i <= u@.len(),
                self.vault.wf(),
                self.sound(u@, list@),
                self.covers(u@, list@, i as int, 0),
            decreases u@.len() - i,
        {
            let src: usize = u[i];
            if src >= NODES {
                return None;
            }
            let ways: &Vec<Dest> = match &self.vault.edges[src] {
                Some(ways) => ways,
                None => {
                    assert(self.vault.ways(u@[i as int] as int).is_none());
                    return None;
                },
            };
            assert(self.vault.ways(src as int) == Some(ways@));
            let mut k: usize = 0;
            while k < ways.len()
                invariant
                    k <= ways@.len(),
                    i < u@.len(),
                    src == u@[i as int],
                    src < 30,
                    self.vault.ways(src as int) == Some(ways@),
                    self.sound(u@, list@),
                    self.covers(u@, list@, i as int, k as int),
                decreases ways@.len() - k,
            {
                let d: Dest = ways[k];
                let took: bool = d.needs_keys & self.not_got_keys == 0;
                let ghost before = list@;
                if took {
                    let mut to: Vec<usize> = u.clone();
                    assert(to@ =~= u@);
                    to.set(i, d.node);
                    let e = Edge { to, cost: d.steps };
                    proof {
                        self.lemma_more(u@, before, e, i as int, k as int, true);
                    }
                    list.push(e);
                } else {
                    proof {
                        let e = Edge { to: *u, cost: 0 };
                        self.lemma_more(u@, before, e, i as int, k as int, false);
                    }
                }
                k = k + 1;
            }
            proof {
                assert forall|j: int, m: int|
                    0 <= j < i + 1 || (j == i + 1 && 0 <= m < 0) implies #[trigger] self.has(
                    u@,
                    list@,
                    j,
                    m,
                ) by {
                    if j == i && self.usable(u@, j, m) {
                        assert(0 <= m < ways@.len());
                    }
                }
            }
            i = i + 1;
        }
        Some(list)
    }
}

/// The places where the robots can get to from `from` while the keys of
/// `not_got_keys` are missing, each with the least number of steps that
/// they take together to get there.
pub fn get_reachable(from: Vec<usize>, map: &Vault, not_got_keys: u32, fuel: usize) -> (r: Option<
    Vec<Edge>,
>)
    requires
        map.wf(),
    ensures
        match r {
            Some(list) => is_shortest(&KeyGraph { vault: map, not_got_keys }, from@, list@),
            None => gives_up(&KeyGraph { vault: map, not_got_keys }, from@, fuel as nat),
        },
{
    let graph = KeyGraph { vault: map, not_got_keys };
    shortest(&graph, &from, fuel)
}

/// The keys at the first `upto` places of `q`, as a bit mask. Entrances
/// hold no key.
pub open spec fn keys_at(q: Seq<usize>, upto: int) -> u32
    decreases upto,
{
    if upto <= 0 {
        0
    } else if q[upto - 1] < 26 {
        keys_at(q, upto - 1) | (1u32 << (q[upto - 1] as u32))
    } else {
        keys_at(q, upto - 1)
    }
}

/// The robots at `q` together with the keys of `rem` that they do not
/// stand on.
pub open spec fn arrive(rem: u32, q: Seq<usize>) -> Seq<usize> {
    q.push((rem & !keys_at(q, q.len() as int)) as usize)
}

/// The robots' tours: a place is the list of the places where the robots
/// stand, followed by the set of the keys that are still to be collected,
/// as a bit mask. One move takes the robots, by ways that need none of
/// those keys, to other places, and collects the keys on which they then
/// stand.
pub struct TourGraph<'a> {
    pub vault: &'a Vault,
    pub fuel: usize,
}

impl<'a> TourGraph<'a> {
    /// The moves of the robots while the keys of the last entry of `u` are
    /// missing.
    pub open spec fn inner(&self, u: Seq<usize>) -> KeyGraph<'a> {
        KeyGraph { vault: self.vault, not_got_keys: u.last() as u32 }
    }

    /// Whether the robots of `u` can get to `q` in `w` steps and are then at
    /// the place `v` of the tour.
    pub open spec fn tour(&self, u: Seq<usize>, q: Seq<usize>, v: Seq<usize>, w: int) -> bool {
        reachable(&self.inner(u), u.drop_last(), q, w) && v == arrive(u.last() as u32, q)
    }
}

impl<'a> Graph for TourGraph<'a> {
    open spec fn valid(&self) -> bool {
        self.vault.wf()
    }

    open spec fn step(&self, u: Seq<usize>, v: Seq<usize>, w: int) -> bool {
        &&& u.len() >= 1
        &&& u.last() <= u32::MAX
        &&& exists|q: Seq<usize>| #[trigger] self.tour(u, q, v, w)
    }

    /// The place holds no set of keys, or the search for the places that
    /// the robots can get to gives up.
    open spec fn stuck(&self, u: Seq<usize>) -> bool {
        u.len() == 0 || u.last() > u32::MAX || gives_up(
            &self.inner(u),
            u.drop_last(),
            self.fuel as nat,
        )
    }

    proof fn lemma_costs(&self, u: Seq<usize>, v: Seq<usize>, w: int) {
        let q = choose|q: Seq<usize>| #[trigger] self.tour(u, q, v, w);
        let n = choose|n: nat| reaches(&self.inner(u), u.drop_last(), q, w, n);
        lemma_reach_nonneg(&self.inner(u), u.drop_last(), q, w, n);
    }

    fn successors(&self, u: &Vec<usize>) -> (r: Option<Vec<Edge>>) {
        let r = self.tours(u);
        proof {
            if r.is_some() {
                self.lemma_tours(u@, r.unwrap()@);
            }
        }
        r
    }
}

/// The keys at the places of `q`, as a bit mask.
fn keys_of(q: &Vec<usize>) -> (r: u32)
    ensures
        r == keys_at(q@, q@.len() as int),
{
    let mut r: u32 = 0;
    let mut i: usize = 0;
    while i < q.len()
        invariant
            i <= q@.len(),
            r == keys_at(q@, i as int),
        decreases q@.len() - i,
    {
        if q[i] < 26 {
            r = r | (1u32 << (q[i] as u32));
        }
        i = i + 1;
    }
    r
}

impl<'a> TourGraph<'a> {
    /// Whether every one of `list` is a move of the tour from `u`, and for
    /// every place that the robots can get to a move is listed that takes
    /// no more steps.
    pub open spec fn lists_tours(&self, u: Seq<usize>, list: Seq<Edge>) -> bool {
        &&& forall|k: int|
            0 <= k < list.len() ==> self.step(u, (#[trigger] list[k]).to@, list[k].cost as int)
        &&& forall|q: Seq<usize>, w: int| #[trigger]
            reachable(&self.inner(u), u.drop_last(), q, w) ==> exists|k: int|
                0 <= k < list.len() && (#[trigger] list[k]).to@ == arrive(u.last() as u32, q)
                    && list[k].cost <= w
    }

    /// A list of the tours lists the moves.
    proof fn lemma_tours(&self, u: Seq<usize>, list: Seq<Edge>)
        requires
            self.lists_tours(u, list),
        ensures
            forall|k: int|
                0 <= k < list.len() ==> self.step(u, (#[trigger] list[k]).to@, list[k].cost as int),
            forall|v: Seq<usize>, w: int| #[trigger]
                self.step(u, v, w) ==> exists|k: int|
                    0 <= k < list.len() && (#[trigger] list[k]).to@ == v && list[k].cost <= w,
    {
        assert forall|v: Seq<usize>, w: int| #[trigger] self.step(u, v, w) implies exists|k: int|
            0 <= k < list.len() && (#[trigger] list[k]).to@ == v && list[k].cost <= w by {
            let q = choose|q: Seq<usize>| #[trigger] self.tour(u, q, v, w);
            assert(reachable(&self.inner(u), u.drop_last(), q, w));
        }
    }

    /// The moves of the tour from `u`, or `None` when `u` holds no set of
    /// keys or the search for the places that the robots can get to gives
    /// up.
    #[verifier::rlimit(40)]
    pub fn tours(&self, u: &Vec<usize>) -> (r: Option<Vec<Edge>>)
        requires
            self.vault.wf(),
        ensures
            r.is_none() ==> self.stuck(u@),
            r.is_some() ==> self.lists_tours(u@, r.unwrap()@),
    {
        if u.len() == 0 {
            return None;
        }
        let last: usize = u[u.len() - 1];
        if last > 0xffff_ffff {
            return None;
        }
        let rem: u32 = last as u32;
        let mut robots: Vec<usize> = Vec::new();
        let mut i: usize = 0;
        while i < u.len() - 1
            invariant
                i <= u@.len() - 1,
                robots@ == u@.take(i as int),
            decreases u@.len() - 1 - i,
        {
            robots.push(u[i]);
            i = i + 1;
            assert(robots@ =~= u@.take(i as int));
        }
        assert(robots@ =~= u@.drop_last());
        let graph = KeyGraph { vault: self.vault, not_got_keys: rem };
        assert(graph == self.inner(u@));
        let found: Vec<Edge> = match shortest(&graph, &robots, self.fuel) {
            Some(found) => found,
            None => {
                return None;
            },
        };
        let mut list: Vec<Edge> = Vec::new();
        let mut k: usize = 0;
        while k < found.len()
            invariant
                k <= found@.len(),
                u@.len() >= 1,
                u@.last() == rem,
                graph == self.inner(u@),
                robots@ == u@.drop_last(),
                is_shortest(&graph, robots@, found@),
                list@.len() == k,
                forall|n: int|
                    0 <= n < k ==> (#[trigger] list@[n]).to@ == arrive(rem, found@[n].to@)
                        && list@[n].cost == found@[n].cost,
            decreases found@.len() - k,
        {
            let mut to: Vec<usize> = found[k].to.clone();
            assert(to@ =~= found@[k as int].to@);
            let keys: u32 = keys_of(&to);
            to.push((rem & !keys) as usize);
            list.push(Edge { to, cost: found[k].cost });
            k = k + 1;
        }
        proof {
            assert forall|n: int| 0 <= n < list@.len() implies self.step(
                u@,
                (#[trigger] list@[n]).to@,
                list@[n].cost as int,
            ) by {
                assert(shortest_to(&graph, robots@, found@[n].to@, found@[n].cost as int));
                assert(self.tour(u@, found@[n].to@, list@[n].to@, list@[n].cost as int));
            }
            assert forall|q: Seq<usize>, w: int| #[trigger]
                reachable(&self.inner(u@), u@.drop_last(), q, w) implies exists|n: int|
                0 <= n < list@.len() && (#[trigger] list@[n]).to@ == arrive(u@.last() as u32, q)
                    && list@[n].cost <= w by {
                let m = choose|m: nat| reaches(&graph, robots@, q, w, m);
                assert(names(found@, q));
                let n = choose|n: int| 0 <= n < found@.len() && (#[trigger] found@[n]).to@ == q;
                assert(shortest_to(&graph, robots@, found@[n].to@, found@[n].cost as int));
                assert(list@[n].to@ == arrive(rem, q));
            }
        }
        Some(list)
    }
}

/// Whether the place `x` of a tour holds no key that is still to be
/// collected.
pub open spec fn all_collected(x: Seq<usize>) -> bool {
    x.len() >= 1 && x.last() == 0
}

/// Whether `n` is the least number of steps after which all keys are
/// collected on a tour from `start`.
pub open spec fn collects<G: Graph>(g: &G, start: Seq<usize>, n: int) -> bool {
    &&& exists|x: Seq<usize>| all_collected(x) && #[trigger] shortest_to(g, start, x, n)
    &&& forall|y: Seq<usize>, c: int|
        all_collected(y) && #[trigger] reachable(g, start, y, c) ==> n <= c
}

/// Whether no tour from `start` collects all keys.
pub open spec fn hopeless<G: Graph>(g: &G, start: Seq<usize>) -> bool {
    forall|y: Seq<usize>, c: int| #[trigger] reachable(g, start, y, c) ==> !all_collected(y)
}

/// The least number of steps that the robots at `current_nodes` take
/// together to collect the keys of `remaining_keys`. Returns `None` when
/// they cannot collect them all, or a search gives up: it finds more than
/// `fuel` places, or a number of steps that does not fit in a `usize`.
#[verifier::rlimit(40)]
pub fn visit_all_nodes(map: &Vault, remaining_keys: u32, current_nodes: Vec<usize>, fuel: usize)
    -> (r: Option<usize>)
    requires
        map.wf(),
    ensures
        match r {
            Some(n) => collects(
                &TourGraph { vault: map, fuel },
                current_nodes@.push(remaining_keys as usize),
                n as int,
            ),
            None => gives_up(
                &TourGraph { vault: map, fuel },
                current_nodes@.push(remaining_keys as usize),
                fuel as nat,
            ) || hopeless(
                &TourGraph { vault: map, fuel },
                current_nodes@.push(remaining_keys as usize),
            ),
        },
{
    let graph = TourGraph { vault: map, fuel };
    let mut start: Vec<usize> = current_nodes.clone();
    assert(start@ =~= current_nodes@);
    start.push(remaining_keys as usize);
    let ghost s = start@;
    let found: Vec<Edge> = match shortest(&graph, &start, fuel) {
        Some(found) => found,
        None => {
            return None;
        },
    };
    let mut best: Option<usize> = None;
    let mut k: usize = 0;
    while k < found.len()
        invariant
            k <= found@.len(),
            match best {
                Some(n) => {
                    &&& exists|i: int|
                        0 <= i < k && all_collected((#[trigger] found@[i]).to@) && found@[i].cost
                            == n
                    &&& forall|i: int|
                        0 <= i < k && all_collected((#[trigger] found@[i]).to@) ==> n
                            <= found@[i].cost
                },
                None => forall|i: int| 0 <= i < k ==> !all_collected((#[trigger] found@[i]).to@),
            },
        decreases found@.len() - k,
    {
        let to: &Vec<usize> = &found[k].to;
        if to.len() >= 1 && to[to.len() - 1] == 0 {
            let cost: usize = found[k].cost;
            match best {
                Some(n) => {
                    if cost < n {
                        best = Some(cost);
                    }
                },
                None => {
                    best = Some(cost);
                },
            }
        }
        k = k + 1;
    }
    proof {
        match best {
            Some(n) => {
                let i = choose|i: int|
                    0 <= i < found@.len() && all_collected((#[trigger] found@[i]).to@)
                        && found@[i].cost == n;
                assert(shortest_to(&graph, s, found@[i].to@, found@[i].cost as int));
                assert forall|y: Seq<usize>, c: int|
                    all_collected(y) && #[trigger] reachable(&graph, s, y, c) implies n <= c by {
                    let m = choose|m: nat| reaches(&graph, s, y, c, m);
                    assert(names(found@, y));
                    let j = choose|j: int| 0 <= j < found@.len() && (#[trigger] found@[j]).to@ == y;
                    assert(shortest_to(&graph, s, found@[j].to@, found@[j].cost as int));
                }
            },
            None => {
                assert forall|y: Seq<usize>, c: int| #[trigger]
                    reachable(&graph, s, y, c) implies !all_collected(y) by {
                    let m = choose|m: nat| reaches(&graph, s, y, c, m);
                    assert(names(found@, y));
                    let j = choose|j: int| 0 <= j < found@.len() && (#[trigger] found@[j]).to@ == y;
                }
            },
        }
    }
    best
}

} // verus!
