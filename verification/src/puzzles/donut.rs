use std::collections::HashSet;
use vstd::prelude::*;

verus! {

broadcast use vstd::std_specs::hash::group_hash_axioms;

/// A one-way link between two cells of the maze: column and row of each.
#[derive(Debug, Clone, Copy, PartialEq, Eq)]
pub struct Portal {
    pub from: (usize, usize),
    pub to: (usize, usize),
}

/// A maze in the shape of a donut. Cells are named by column and row.
/// `teleports_inner` leads from the cells at the hole to their partners at
/// the outer edge, `teleports_outer` the other way.
pub struct Maze {
    pub start: (usize, usize),
    pub end: (usize, usize),
    pub grid: Vec<Vec<char>>,
    pub teleports_inner: Vec<Portal>,
    pub teleports_outer: Vec<Portal>,
}

/// The view of a `Maze`.
pub struct MazeView {
    pub start: (usize, usize),
    pub end: (usize, usize),
    pub grid: Seq<Seq<char>>,
    pub teleports_inner: Seq<Portal>,
    pub teleports_outer: Seq<Portal>,
}

impl View for Maze {
    type V = MazeView;

    open spec fn view(&self) -> MazeView {
        MazeView {
            start: self.start,
            end: self.end,
            grid: Seq::new(self.grid@.len(), |y: int| self.grid@[y]@),
            teleports_inner: self.teleports_inner@,
            teleports_outer: self.teleports_outer@,
        }
    }
}

/// A place in the maze: a cell and the level of the maze it lies on.
#[derive(Debug, Clone, Copy, PartialEq, Eq)]
pub struct Spot {
    pub x: usize,
    pub y: usize,
    pub depth: usize,
}

/// Whether `v` is below 2^32.
pub open spec fn small(v: usize) -> bool {
    v < 0x1_0000_0000
}

/// Whether both ends of every one of `portals` have small coordinates.
pub open spec fn small_portals(portals: Seq<Portal>) -> bool {
    forall|k: int|
        0 <= k < portals.len() ==> small((#[trigger] portals[k]).to.0) && small(portals[k].to.1)
}

impl MazeView {
    /// Whether all coordinates of the maze are below 2^32.
    pub open spec fn wf(self) -> bool {
        &&& small(self.start.0) && small(self.start.1)
        &&& self.grid.len() < 0x1_0000_0000
        &&& forall|y: int| 0 <= y < self.grid.len() ==> (#[trigger] self.grid[y]).len() < 0x1_0000_0000
        &&& small_portals(self.teleports_inner)
        &&& small_portals(self.teleports_outer)
    }

    /// Whether column `x` of row `y` is an open cell.
    pub open spec fn open(self, x: int, y: int) -> bool {
        0 <= y < self.grid.len() && 0 <= x < self.grid[y].len() && self.grid[y][x] == '.'
    }

    /// Whether one step on the same level leads from `a` to `b`.
    pub open spec fn walks(self, a: Spot, b: Spot) -> bool {
        b.depth == a.depth && beside((a.x, a.y), (b.x, b.y)) && self.open(b.x as int, b.y as int)
    }

    /// Whether a portal leads from `a` to `b`. Where levels matter, a portal
    /// at the hole leads one level down, one at the outer edge one level
    /// up, and those at the outer edge of level 0 are closed; where they do
    /// not, everything is on level 0.
    pub open spec fn jumps(self, levels: bool, a: Spot, b: Spot) -> bool {
        ||| {
            &&& a.depth > 0 || !levels
            &&& teleport(self.teleports_outer, (a.x, a.y), self.teleports_outer.len() as int)
                == Some((b.x, b.y))
            &&& b.depth == if levels {
                a.depth - 1
            } else {
                0
            }
        }
        ||| {
            &&& teleport(self.teleports_inner, (a.x, a.y), self.teleports_inner.len() as int)
                == Some((b.x, b.y))
            &&& b.depth == if levels {
                a.depth + 1
            } else {
                0
            }
        }
    }

    /// Whether one move leads from `a` to `b`.
    pub open spec fn moves(self, levels: bool, a: Spot, b: Spot) -> bool {
        self.walks(a, b) || self.jumps(levels, a, b)
    }

    /// Whether the end of the maze is one step from `a`.
    pub open spec fn arrives(self, a: Spot) -> bool {
        a.depth == 0 && beside((a.x, a.y), self.end)
    }
}

/// Whether the two cells are next to each other in a row or a column.
pub open spec fn beside(a: (usize, usize), b: (usize, usize)) -> bool {
    ||| (a.0 == b.0 && (a.1 + 1 == b.1 || b.1 + 1 == a.1))
    ||| (a.1 == b.1 && (a.0 + 1 == b.0 || b.0 + 1 == a.0))
}

/// Where the last of the first `upto` portals that start at `from` leads.
pub open spec fn teleport(portals: Seq<Portal>, from: (usize, usize), upto: int) -> Option<
    (usize, usize),
>
    decreases upto,
{
    if upto <= 0 {
        None
    } else if portals[upto - 1].from == from {
        Some(portals[upto - 1].to)
    } else {
        teleport(portals, from, upto - 1)
    }
}

/// The places that one move leads to from a place of `frontier` and that
/// are not in `visited`.
pub open spec fn next_layer(maze: MazeView, levels: bool, frontier: Set<Spot>, visited: Set<Spot>)
    -> Set<Spot> {
    Set::new(
        |b: Spot|
            !visited.contains(b) && exists|a: Spot| #[trigger]
                frontier.contains(a) && maze.moves(levels, a, b),
    )
}

/// The number of steps to the end of the maze, when `done` steps lead to
/// the places of `frontier` and fewer to the other places of `visited`:
/// the search goes on layer by layer, each layer holding the places first
/// reached by one more move, until the end is one step from a place of the
/// layer. The number is 0 when the layers run out before, and there is none
/// when they go on for more than `fuel` layers.
pub open spec fn spec_steps(
    maze: MazeView,
    levels: bool,
    frontier: Set<Spot>,
    visited: Set<Spot>,
    done: nat,
    fuel: nat,
) -> Option<nat>
    decreases fuel,
{
    if exists|a: Spot| #[trigger] frontier.contains(a) && maze.arrives(a) {
        Some(done + 1)
    } else {
        let next = next_layer(maze, levels, frontier, visited);
        if next == Set::<Spot>::empty() {
            Some(0)
        } else if fuel == 0 {
            None
        } else {
            spec_steps(maze, levels, next, visited.union(next), done + 1, (fuel - 1) as nat)
        }
    }
}

/// The integer under which a place is filed: a different one for each place
/// with small coordinates.
pub open spec fn spot_key(s: Spot) -> u128 {
    (s.depth * 0x1_0000_0000_0000_0000 + s.x * 0x1_0000_0000 + s.y) as u128
}

fn key_of(s: &Spot) -> (k: u128)
    requires
        small(s.x),
        small(s.y),
    ensures
        k == spot_key(*s),
{
    (s.depth as u128) * 0x1_0000_0000_0000_0000 + (s.x as u128) * 0x1_0000_0000 + (s.y as u128)
}

/// Where the last of `portals` that starts at `from` leads.
pub fn lookup(portals: &Vec<Portal>, from: (usize, usize)) -> (r: Option<(usize, usize)>)
    ensures
        r == teleport(portals@, from, portals@.len() as int),
{
    let mut k: usize = portals.len();
    while k > 0
        invariant
            k <= portals@.len(),
            teleport(portals@, from, k as int) == teleport(portals@, from, portals@.len() as int),
        decreases k,
    {
        let p: Portal = portals[k - 1];
        if p.from.0 == from.0 && p.from.1 == from.1 {
            return Some(p.to);
        }
        k = k - 1;
    }
    None
}

/// Whether the two cells are next to each other in a row or a column.
pub fn adjacent(a: (usize, usize), b: (usize, usize)) -> (r: bool)
    ensures
        r == beside(a, b),
{
    (a.0 == b.0 && ((a.1 < usize::MAX && a.1 + 1 == b.1) || (b.1 < usize::MAX && b.1 + 1 == a.1)))
        || (a.1 == b.1 && ((a.0 < usize::MAX && a.0 + 1 == b.0) || (b.0 < usize::MAX && b.0 + 1
        == a.0)))
}

impl Maze {
    /// Whether column `x` of row `y` is an open cell.
    pub fn is_open(&self, x: usize, y: usize) -> (r: bool)
        ensures
            r == self@.open(x as int, y as int),
    {
        if y >= self.grid.len() {
            return false;
        }
        if x >= self.grid[y].len() {
            return false;
        }
        self.grid[y][x] == '.'
    }

    /// The places that one move leads to from `a`: up to four by walking
    /// and up to two through portals, in no particular order and possibly
    /// with repeats.
    #[verifier::rlimit(40)]
    pub fn successors(&self, levels: bool, a: &Spot) -> (r: Vec<Spot>)
        requires
            self@.wf(),
            a.depth < usize::MAX,
        ensures
            forall|b: Spot| r@.contains(b) <==> self@.moves(levels, *a, b),
            forall|k: int| 0 <= k < r@.len() ==> small((#[trigger] r@[k]).x) && small(r@[k].y),
    {
        let mut r: Vec<Spot> = Vec::new();
        let x: usize = a.x;
        let y: usize = a.y;
        let ghost m = self@;
        proof {
            lemma_teleport_small(self.teleports_outer@, (x, y), self.teleports_outer@.len() as int);
            lemma_teleport_small(self.teleports_inner@, (x, y), self.teleports_inner@.len() as int);
        }
        if x < usize::MAX && self.is_open(x + 1, y) {
            let ghost before = r@;
            r.push(Spot { x: x + 1, y, depth: a.depth });
            proof {
                lemma_push_contains(before, r@[r@.len() - 1]);
            }
        }
        assert(forall|b: Spot| r@.contains(b) <==> m.walks(*a, b) && b.x == x + 1);
        if x > 0 && self.is_open(x - 1, y) {
            let ghost before = r@;
            r.push(Spot { x: x - 1, y, depth: a.depth });
            proof {
                lemma_push_contains(before, r@[r@.len() - 1]);
            }
        }
        assert(forall|b: Spot| r@.contains(b) <==> m.walks(*a, b) && b.y == y);
        if y < usize::MAX && self.is_open(x, y + 1) {
            let ghost before = r@;
            r.push(Spot { x, y: y + 1, depth: a.depth });
            proof {
                lemma_push_contains(before, r@[r@.len() - 1]);
            }
        }
        assert(forall|b: Spot| r@.contains(b) <==> m.walks(*a, b) && (b.y == y || b.y == y + 1));
        if y > 0 && self.is_open(x, y - 1) {
            let ghost before = r@;
            r.push(Spot { x, y: y - 1, depth: a.depth });
            proof {
                lemma_push_contains(before, r@[r@.len() - 1]);
            }
        }
        assert(forall|b: Spot| r@.contains(b) <==> m.walks(*a, b));
        assert(forall|k: int| 0 <= k < r@.len() ==> m.walks(*a, #[trigger] r@[k])) by {
            assert forall|k: int| 0 <= k < r@.len() implies m.walks(*a, #[trigger] r@[k]) by {
                assert(r@.contains(r@[k]));
            }
        }
        let ghost outer = teleport(m.teleports_outer, (x, y), m.teleports_outer.len() as int);
        let ghost inner = teleport(m.teleports_inner, (x, y), m.teleports_inner.len() as int);
        let ghost up = Spot {
            x: outer.unwrap().0,
            y: outer.unwrap().1,
            depth: if levels {
                (a.depth - 1) as usize
            } else {
                0
            },
        };
        let ghost down = Spot {
            x: inner.unwrap().0,
            y: inner.unwrap().1,
            depth: if levels {
                (a.depth + 1) as usize
            } else {
                0
            },
        };
        let ghost goes_up = (a.depth > 0 || !levels) && outer.is_some();
        if a.depth > 0 || !levels {
            match lookup(&self.teleports_outer, (x, y)) {
                Some(p) => {
                    let depth: usize = if levels {
                        a.depth - 1
                    } else {
                        0
                    };
                    let ghost before = r@;
                    r.push(Spot { x: p.0, y: p.1, depth });
                    proof {
                        lemma_push_contains(before, r@[r@.len() - 1]);
                    }
                },
                None => {},
            }
        }
        assert(forall|b: Spot| #[trigger]
            r@.contains(b) <==> m.walks(*a, b) || (goes_up && b == up));
        match lookup(&self.teleports_inner, (x, y)) {
            Some(p) => {
                let depth: usize = if levels {
                    a.depth + 1
                } else {
                    0
                };
                let ghost before = r@;
                r.push(Spot { x: p.0, y: p.1, depth });
                proof {
                    lemma_push_contains(before, down);
                    assert(r@[r@.len() - 1] == down);
                    assert(r@ == before.push(down));
                    assert forall|b: Spot|
                        r@.contains(b) <==> m.walks(*a, b) || (goes_up && b == up) || (
                        inner.is_some() && b == down) by {
                        assert(before.push(down).contains(b) <==> before.contains(b) || b
                            == down);
                        assert(before.contains(b) <==> m.walks(*a, b) || (goes_up && b == up));
                    }
                }
            },
            None => {
                assert(inner.is_none());
            },
        }
        assert(forall|b: Spot|
            r@.contains(b) <==> m.walks(*a, b) || (goes_up && b == up) || (inner.is_some() && b
                == down));
        assert forall|b: Spot| r@.contains(b) <==> m.moves(levels, *a, b) by {
            if m.jumps(levels, *a, b) {
                assert((goes_up && b == up) || (inner.is_some() && b == down));
            }
        }
        assert forall|k: int| 0 <= k < r@.len() implies small((#[trigger] r@[k]).x) && small(
            r@[k].y,
        ) by {
            assert(r@.contains(r@[k]));
        }
        r
    }
}

/// After a push a sequence holds what it held before and the new element.
proof fn lemma_push_contains(before: Seq<Spot>, x: Spot)
    ensures
        forall|b: Spot| before.push(x).contains(b) <==> before.contains(b) || b == x,
{
    let after = before.push(x);
    assert forall|b: Spot| after.contains(b) <==> before.contains(b) || b == x by {
        if after.contains(b) {
            let i = choose|i: int| 0 <= i < after.len() && after[i] == b;
            if i < before.len() {
                assert(before[i] == b);
            }
        }
        if before.contains(b) {
            let i = choose|i: int| 0 <= i < before.len() && before[i] == b;
            assert(after[i] == b);
        }
        if b == x {
            assert(after[after.len() - 1] == b);
        }
    }
}

/// A portal leads to small coordinates.
proof fn lemma_teleport_small(portals: Seq<Portal>, from: (usize, usize), upto: int)
    requires
        small_portals(portals),
        upto <= portals.len(),
    ensures
        match teleport(portals, from, upto) {
            Some(p) => small(p.0) && small(p.1),
            None => true,
        },
    decreases upto,
{
    if upto > 0 && portals[upto - 1].from != from {
        lemma_teleport_small(portals, from, upto - 1);
    }
}

/// Places with small coordinates that are filed under the same integer are
/// the same place.
proof fn lemma_key_injective(s: Spot, t: Spot)
    requires
        small(s.x) && small(s.y),
        small(t.x) && small(t.y),
        spot_key(s) == spot_key(t),
    ensures
        s == t,
{
}

/// The places listed in `list`.
pub open spec fn listed(list: Seq<Spot>) -> Set<Spot> {
    Set::new(|s: Spot| list.contains(s))
}

/// Whether a move leads to `b` from one of the first `upto` places of
/// `frontier`.
pub open spec fn reached(maze: MazeView, levels: bool, frontier: Seq<Spot>, upto: int, b: Spot)
    -> bool {
    exists|k: int| 0 <= k < upto && maze.moves(levels, #[trigger] frontier[k], b)
}

/// Whether `b` is among the first `upto` places of `list`.
pub open spec fn among(list: Seq<Spot>, upto: int, b: Spot) -> bool {
    exists|k: int| 0 <= k < upto && #[trigger] list[k] == b
}

/// The place where the search starts: the start of the maze on level 0.
pub open spec fn start_of(maze: MazeView) -> Spot {
    Spot { x: maze.start.0, y: maze.start.1, depth: 0 }
}

/// The number of steps from the start of the maze to its end, or 0 when
/// there is no way. With `in_out_matters` the maze has levels, and both
/// start and end lie on level 0. Returns `None` when the end is more than
/// `max_steps` + 1 steps away.
#[verifier::rlimit(60)]
pub fn steps_to_end(map: &Maze, in_out_matters: bool, max_steps: usize) -> (r: Option<usize>)
    requires
        map@.wf(),
        max_steps < usize::MAX,
    ensures
        match spec_steps(
            map@,
            in_out_matters,
            set![start_of(map@)],
            set![start_of(map@)],
            0,
            max_steps as nat,
        ) {
            Some(n) => r == Some(n as usize) && n <= max_steps + 1,
            None => r.is_none(),
        },
{
    let ghost m = map@;
    let start: Spot = Spot { x: map.start.0, y: map.start.1, depth: 0 };
    let mut visited: HashSet<u128> = HashSet::new();
    visited.insert(key_of(&start));
    let ghost mut seen: Set<Spot> = set![start];
    let mut explore_from: Vec<Spot> = Vec::new();
    explore_from.push(start);
    let mut steps: usize = 0;
    proof {
        assert(listed(explore_from@) =~= set![start]) by {
            assert(explore_from@[0] == start);
        }
        assert forall|s: Spot| small(s.x) && small(s.y) implies (visited@.contains(
            #[trigger] spot_key(s),
        ) <==> seen.contains(s)) by {
            if spot_key(s) == spot_key(start) {
                lemma_key_injective(s, start);
            }
        }
    }
    loop
        invariant
            m == map@,
            m.wf(),
            steps <= max_steps,
            max_steps < usize::MAX,
            forall|k: int|
                0 <= k < explore_from@.len() ==> small((#[trigger] explore_from@[k]).x) && small(
                    explore_from@[k].y,
                ) && explore_from@[k].depth <= steps,
            forall|s: Spot|
                small(s.x) && small(s.y) ==> (visited@.contains(#[trigger] spot_key(s))
                    <==> seen.contains(s)),
            spec_steps(
                m,
                in_out_matters,
                listed(explore_from@),
                seen,
                steps as nat,
                (max_steps - steps) as nat,
            ) == spec_steps(
                m,
                in_out_matters,
                set![start_of(m)],
                set![start_of(m)],
                0,
                max_steps as nat,
            ),
        decreases max_steps - steps,
    {
        let mut i: usize = 0;
        while i < explore_from.len()
            invariant
                i <= explore_from@.len(),
                m == map@,
                steps <= max_steps,
                max_steps < usize::MAX,
                forall|k: int| 0 <= k < i ==> !m.arrives(#[trigger] explore_from@[k]),
                spec_steps(
                    m,
                    in_out_matters,
                    listed(explore_from@),
                    seen,
                    steps as nat,
                    (max_steps - steps) as nat,
                ) == spec_steps(
                    m,
                    in_out_matters,
                    set![start_of(m)],
                    set![start_of(m)],
                    0,
                    max_steps as nat,
                ),
            decreases explore_from@.len() - i,
        {
            let a: Spot = explore_from[i];
            if a.depth == 0 && adjacent((a.x, a.y), map.end) {
                assert(listed(explore_from@).contains(a) && m.arrives(a));
                return Some(steps + 1);
            }
            i = i + 1;
        }
        assert(!(exists|a: Spot| #[trigger] listed(explore_from@).contains(a) && m.arrives(a))) by {
            if exists|a: Spot| #[trigger] listed(explore_from@).contains(a) && m.arrives(a) {
                let a = choose|a: Spot| #[trigger]
                    listed(explore_from@).contains(a) && m.arrives(a);
                let k = choose|k: int| 0 <= k < explore_from@.len() && explore_from@[k] == a;
                assert(!m.arrives(explore_from@[k]));
            }
        }
        let ghost seen_before = seen;
        let mut newly_visited: Vec<Spot> = Vec::new();
        let mut i: usize = 0;
        while i < explore_from.len()
            invariant
                i <= explore_from@.len(),
                m == map@,
                m.wf(),
                steps <= max_steps,
                max_steps < usize::MAX,
                forall|k: int|
                    0 <= k < explore_from@.len() ==> small((#[trigger] explore_from@[k]).x)
                        && small(explore_from@[k].y) && explore_from@[k].depth <= steps,
                forall|k: int|
                    0 <= k < newly_visited@.len() ==> small((#[trigger] newly_visited@[k]).x)
                        && small(newly_visited@[k].y) && newly_visited@[k].depth <= steps + 1,
                forall|s: Spot|
                    small(s.x) && small(s.y) ==> (visited@.contains(#[trigger] spot_key(s))
                        <==> seen.contains(s)),
                forall|b: Spot| #[trigger]
                    seen.contains(b) <==> seen_before.contains(b) || newly_visited@.contains(b),
                forall|b: Spot| #[trigger]
                    newly_visited@.contains(b) <==> !seen_before.contains(b) && reached(
                        m,
                        in_out_matters,
                        explore_from@,
                        i as int,
                        b,
                    ),
            decreases explore_from@.len() - i,
        {
            let a: Spot = explore_from[i];
            let accessible: Vec<Spot> = map.successors(in_out_matters, &a);
            let mut j: usize = 0;
            while j < accessible.len()
                invariant
                    j <= accessible@.len(),
                    i < explore_from@.len(),
                    a == explore_from@[i as int],
                    a.depth <= steps,
                    steps < usize::MAX,
                    m == map@,
                    forall|b: Spot| accessible@.contains(b) <==> m.moves(in_out_matters, a, b),
                    forall|k: int|
                        0 <= k < accessible@.len() ==> small((#[trigger] accessible@[k]).x)
                            && small(accessible@[k].y),
                    forall|k: int|
                        0 <= k < newly_visited@.len() ==> small((#[trigger] newly_visited@[k]).x)
                            && small(newly_visited@[k].y) && newly_visited@[k].depth <= steps + 1,
                    forall|s: Spot|
                        small(s.x) && small(s.y) ==> (visited@.contains(#[trigger] spot_key(s))
                            <==> seen.contains(s)),
                    forall|b: Spot| #[trigger]
                        seen.contains(b) <==> seen_before.contains(b)
                            || newly_visited@.contains(b),
                    forall|b: Spot| #[trigger]
                        newly_visited@.contains(b) <==> !seen_before.contains(b) && (reached(
                            m,
                            in_out_matters,
                            explore_from@,
                            i as int,
                            b,
                        ) || among(accessible@, j as int, b)),
                decreases accessible@.len() - j,
            {
                let p: Spot = accessible[j];
                let k: u128 = key_of(&p);
                let ghost list_before = newly_visited@;
                let ghost seen_then = seen;
                let known: bool = visited.contains(&k);
                assert(known == seen.contains(p));
                assert(accessible@.contains(p));
                assert(m.moves(in_out_matters, a, p));
                if !known {
                    visited.insert(k);
                    newly_visited.push(p);
                    proof {
                        seen = seen.insert(p);
                        lemma_push_contains(list_before, p);
                        assert forall|b: Spot| #[trigger]
                            seen.contains(b) <==> seen_before.contains(b)
                                || newly_visited@.contains(b) by {
                            assert(seen_then.contains(b) <==> seen_before.contains(b)
                                || list_before.contains(b));
                        }
                        assert forall|s: Spot| small(s.x) && small(s.y) implies (visited@.contains(
                            #[trigger] spot_key(s),
                        ) <==> seen.contains(s)) by {
                            if spot_key(s) == k {
                                lemma_key_injective(s, p);
                            }
                        }
                    }
                }
                proof {
                    assert forall|b: Spot| #[trigger]
                        newly_visited@.contains(b) <==> !seen_before.contains(b) && (reached(
                            m,
                            in_out_matters,
                            explore_from@,
                            i as int,
                            b,
                        ) || among(accessible@, j + 1, b)) by {
                        assert(list_before.contains(b) <==> !seen_before.contains(b) && (reached(
                            m,
                            in_out_matters,
                            explore_from@,
                            i as int,
                            b,
                        ) || among(accessible@, j as int, b)));
                        assert(seen_then.contains(b) <==> seen_before.contains(b)
                            || list_before.contains(b));
                        if among(accessible@, j + 1, b) {
                            let w = choose|w: int| 0 <= w < j + 1 && accessible@[w] == b;
                            if w < j {
                                assert(among(accessible@, j as int, b));
                            }
                        }
                        if among(accessible@, j as int, b) {
                            let w = choose|w: int| 0 <= w < j && accessible@[w] == b;
                            assert(0 <= w < j + 1 && accessible@[w] == b);
                        }
                        if b == p {
                            assert(0 <= j < j + 1 && accessible@[j as int] == b);
                        }
                    }
                }
                j = j + 1;
            }
            proof {
                assert forall|b: Spot| #[trigger]
                    newly_visited@.contains(b) <==> !seen_before.contains(b) && reached(
                        m,
                        in_out_matters,
                        explore_from@,
                        i + 1,
                        b,
                    ) by {
                    if among(accessible@, accessible@.len() as int, b) {
                        let w = choose|w: int| 0 <= w < accessible@.len() && accessible@[w] == b;
                        assert(accessible@.contains(b));
                        assert(m.moves(in_out_matters, explore_from@[i as int], b));
                    }
                    if reached(m, in_out_matters, explore_from@, i + 1, b) {
                        let w = choose|w: int|
                            0 <= w < i + 1 && m.moves(
                                in_out_matters,
                                #[trigger] explore_from@[w],
                                b,
                            );
                        if w < i {
                            assert(reached(m, in_out_matters, explore_from@, i as int, b));
                        } else {
                            assert(accessible@.contains(b));
                            let v = choose|v: int|
                                0 <= v < accessible@.len() && accessible@[v] == b;
                            assert(among(accessible@, accessible@.len() as int, b));
                        }
                    }
                    if reached(m, in_out_matters, explore_from@, i as int, b) {
                        let w = choose|w: int|
                            0 <= w < i && m.moves(in_out_matters, #[trigger] explore_from@[w], b);
                        assert(0 <= w < i + 1);
                    }
                }
            }
            i = i + 1;
        }
        let ghost next = next_layer(m, in_out_matters, listed(explore_from@), seen_before);
        proof {
            assert forall|b: Spot| listed(newly_visited@).contains(b) <==> next.contains(b) by {
                if reached(m, in_out_matters, explore_from@, explore_from@.len() as int, b) {
                    let w = choose|w: int|
                        0 <= w < explore_from@.len() && m.moves(
                            in_out_matters,
                            #[trigger] explore_from@[w],
                            b,
                        );
                    assert(listed(explore_from@).contains(explore_from@[w]));
                }
                if next.contains(b) {
                    let a = choose|a: Spot| #[trigger]
                        listed(explore_from@).contains(a) && m.moves(in_out_matters, a, b);
                    let w = choose|w: int| 0 <= w < explore_from@.len() && explore_from@[w] == a;
                    assert(m.moves(in_out_matters, explore_from@[w], b));
                }
            }
            assert(listed(newly_visited@) =~= next);
            assert(seen =~= seen_before.union(next));
        }
        if newly_visited.len() == 0 {
            assert(next =~= Set::<Spot>::empty()) by {
                assert forall|b: Spot| !next.contains(b) by {
                    if next.contains(b) {
                        assert(listed(newly_visited@).contains(b));
                    }
                }
            }
            return Some(0);
        }
        assert(next != Set::<Spot>::empty()) by {
            assert(listed(newly_visited@).contains(newly_visited@[0]));
        }
        if steps == max_steps {
            return None;
        }
        explore_from = newly_visited;
        steps = steps + 1;
    }
}

/// A label of two letters and the open cell that it names.
#[derive(Debug, Clone, Copy, PartialEq, Eq)]
pub struct Tag {
    pub label: (char, char),
    pub at: (usize, usize),
}

/// A line of cells along which labels are looked for.
///
/// With `across` the line runs along a row from (`x`, `y`) to the right;
/// a label starts on the line and is read downwards, and it names the cell
/// in its column one row above the line if `back` is set and two rows below
/// it if not. Without `across` the line runs down a column; a label is read
/// to the right and names the cell in its row one column left of the line
/// or two columns right of it.
#[derive(Debug, Clone, Copy, PartialEq, Eq)]
pub struct Line {
    pub x: usize,
    pub y: usize,
    pub across: bool,
    pub back: bool,
}

/// The character in column `x` of row `y`, if the picture has one there.
pub open spec fn spec_cell(grid: Seq<Seq<char>>, x: int, y: int) -> Option<char> {
    if 0 <= y < grid.len() && 0 <= x < grid[y].len() {
        Some(grid[y][x])
    } else {
        None
    }
}

/// The label that starts at place `i` of `line`, if there is one: its first
/// character is no blank, its second character exists, and so does the
/// cell that it names.
pub open spec fn spec_tag(grid: Seq<Seq<char>>, line: Line, i: int) -> Option<Tag> {
    let x = if line.across {
        line.x + i
    } else {
        line.x as int
    };
    let y = if line.across {
        line.y as int
    } else {
        line.y + i
    };
    let first = spec_cell(grid, x, y);
    let second = if line.across {
        spec_cell(grid, x, y + 1)
    } else {
        spec_cell(grid, x + 1, y)
    };
    let shift = if line.back {
        -1int
    } else {
        2int
    };
    let tx = if line.across {
        x
    } else {
        x + shift
    };
    let ty = if line.across {
        y + shift
    } else {
        y
    };
    if first.is_some() && first.unwrap() != ' ' && second.is_some() && tx >= 0 && ty >= 0 {
        Some(Tag { label: (first.unwrap(), second.unwrap()), at: (tx as usize, ty as usize) })
    } else {
        None
    }
}

/// The labels that start at the first `count` places of `line`, in order.
pub open spec fn spec_scan(grid: Seq<Seq<char>>, line: Line, count: int) -> Seq<Tag>
    decreases count,
{
    if count <= 0 {
        Seq::empty()
    } else {
        match spec_tag(grid, line, count - 1) {
            Some(tag) => spec_scan(grid, line, count - 1).push(tag),
            None => spec_scan(grid, line, count - 1),
        }
    }
}

/// Whether every one of `tags` names a cell with small coordinates.
pub open spec fn small_tags(tags: Seq<Tag>) -> bool {
    forall|k: int| 0 <= k < tags.len() ==> small((#[trigger] tags[k]).at.0) && small(tags[k].at.1)
}

/// The rows of `grid` as sequences.
pub open spec fn rows(grid: Vec<Vec<char>>) -> Seq<Seq<char>> {
    Seq::new(grid@.len(), |y: int| grid@[y]@)
}

/// The character in column `x` of row `y`, if the picture has one there.
pub fn cell(grid: &Vec<Vec<char>>, x: usize, y: usize) -> (r: Option<char>)
    ensures
        r == spec_cell(rows(*grid), x as int, y as int),
{
    if y < grid.len() {
        if x < grid[y].len() {
            return Some(grid[y][x]);
        }
    }
    None
}

/// Appends to `tags` the labels that start at the first `count` places of
/// `line`.
pub fn scan(grid: &Vec<Vec<char>>, tags: &mut Vec<Tag>, line: Line, count: usize)
    requires
        line.x + count + 2 <= usize::MAX,
        line.y + count + 2 <= usize::MAX,
    ensures
        final(tags)@ == old(tags)@ + spec_scan(rows(*grid), line, count as int),
        small_tags(old(tags)@) && line.x + count + 2 < 0x1_0000_0000 && line.y + count + 2
            < 0x1_0000_0000 ==> small_tags(final(tags)@),
{
    let mut i: usize = 0;
    assert(tags@ =~= old(tags)@ + spec_scan(rows(*grid), line, 0));
    while i < count
        invariant
            i <= count,
            line.x + count + 2 <= usize::MAX,
            line.y + count + 2 <= usize::MAX,
            tags@ == old(tags)@ + spec_scan(rows(*grid), line, i as int),
            small_tags(old(tags)@) && line.x + count + 2 < 0x1_0000_0000 && line.y + count + 2
                < 0x1_0000_0000 ==> small_tags(tags@),
        decreases count - i,
    {
        let x: usize = if line.across {
            line.x + i
        } else {
            line.x
        };
        let y: usize = if line.across {
            line.y
        } else {
            line.y + i
        };
        let first: Option<char> = cell(grid, x, y);
        let second: Option<char> = if line.across {
            cell(grid, x, y + 1)
        } else {
            cell(grid, x + 1, y)
        };
        let target: Option<(usize, usize)> = if line.across {
            if line.back {
                if y >= 1 {
                    Some((x, y - 1))
                } else {
                    None
                }
            } else {
                Some((x, y + 2))
            }
        } else {
            if line.back {
                if x >= 1 {
                    Some((x - 1, y))
                } else {
                    None
                }
            } else {
                Some((x + 2, y))
            }
        };
        let ghost before = tags@;
        match (first, second, target) {
            (Some(c1), Some(c2), Some(at)) => {
                if c1 != ' ' {
                    tags.push(Tag { label: (c1, c2), at });
                    assert(tags@ =~= old(tags)@ + spec_scan(rows(*grid), line, i + 1));
                    assert(small_tags(before) && small(at.0) && small(at.1) ==> small_tags(
                        tags@,
                    )) by {
                        if small_tags(before) && small(at.0) && small(at.1) {
                            assert forall|k: int| 0 <= k < tags@.len() implies small(
                                (#[trigger] tags@[k]).at.0,
                            ) && small(tags@[k].at.1) by {
                                if k < before.len() {
                                    assert(tags@[k] == before[k]);
                                }
                            }
                        }
                    }
                } else {
                    assert(tags@ =~= old(tags)@ + spec_scan(rows(*grid), line, i + 1));
                }
            },
            _ => {
                assert(spec_tag(rows(*grid), line, i as int).is_none());
                assert(tags@ =~= old(tags)@ + spec_scan(rows(*grid), line, i + 1));
            },
        }
        i = i + 1;
    }
}

/// The place of the last of the first `upto` tags that carries `label`, or
/// -1 when none does.
pub open spec fn spec_find(tags: Seq<Tag>, label: (char, char), upto: int) -> int
    decreases upto,
{
    if upto <= 0 {
        -1
    } else if tags[upto - 1].label == label {
        upto - 1
    } else {
        spec_find(tags, label, upto - 1)
    }
}

/// The place of the last of `tags` that carries `label`.
pub fn find(tags: &Vec<Tag>, label: (char, char)) -> (r: Option<usize>)
    ensures
        match r {
            Some(k) => k == spec_find(tags@, label, tags@.len() as int) && k < tags@.len(),
            None => spec_find(tags@, label, tags@.len() as int) == -1,
        },
{
    let mut k: usize = tags.len();
    while k > 0
        invariant
            k <= tags@.len(),
            spec_find(tags@, label, k as int) == spec_find(tags@, label, tags@.len() as int),
        decreases k,
    {
        let l: (char, char) = tags[k - 1].label;
        if l.0 == label.0 && l.1 == label.1 {
            return Some((k - 1) as usize);
        }
        k = k - 1;
    }
    None
}

/// The box round the hole of the donut: the column and row of the first
/// cell, read row by row, that is neither open nor wall and lies inside the
/// rows 2 to height - 3 and the columns 2 to width - 1, and the last column
/// and last row that hold such a cell. All are 0 where there is none.
pub struct Hole {
    pub x1: usize,
    pub y1: usize,
    pub x2: usize,
    pub y2: usize,
}

/// Whether column `x` of `row` counts for the hole.
pub open spec fn in_hole(row: Seq<char>, x: int, width: int) -> bool {
    row[x] != '.' && row[x] != '#' && 1 < x < width
}

/// The hole as it is known after the first `upto` cells of `row`, when it
/// was `hole` before the row.
pub open spec fn spec_hole_row(hole: Hole, row: Seq<char>, y: usize, width: int, upto: int)
    -> Hole
    decreases upto,
{
    if upto <= 0 {
        hole
    } else {
        let before = spec_hole_row(hole, row, y, width, upto - 1);
        if in_hole(row, upto - 1, width) {
            Hole {
                x1: if before.x1 == 0 {
                    (upto - 1) as usize
                } else {
                    before.x1
                },
                x2: if before.x2 < upto - 1 {
                    (upto - 1) as usize
                } else {
                    before.x2
                },
                y1: if before.y1 == 0 {
                    y
                } else {
                    before.y1
                },
                y2: if before.y2 < y {
                    y
                } else {
                    before.y2
                },
            }
        } else {
            before
        }
    }
}

/// The hole as it is known after the first `upto` rows of `grid`.
pub open spec fn spec_hole(grid: Seq<Seq<char>>, width: int, upto: int) -> Hole
    decreases upto,
{
    if upto <= 0 {
        Hole { x1: 0, y1: 0, x2: 0, y2: 0 }
    } else {
        let before = spec_hole(grid, width, upto - 1);
        if 1 < upto - 1 && upto - 1 < grid.len() - 2 {
            spec_hole_row(
                before,
                grid[upto - 1],
                (upto - 1) as usize,
                width,
                grid[upto - 1].len() as int,
            )
        } else {
            before
        }
    }
}

/// Finds the box round the hole of the donut.
pub fn find_hole(grid: &Vec<Vec<char>>, width: usize) -> (hole: Hole)
    ensures
        hole == spec_hole(rows(*grid), width as int, grid@.len() as int),
{
    let height: usize = grid.len();
    let mut hole = Hole { x1: 0, y1: 0, x2: 0, y2: 0 };
    let mut y: usize = 0;
    while y < height
        invariant
            y <= height,
            height == grid@.len(),
            hole == spec_hole(rows(*grid), width as int, y as int),
        decreases height - y,
    {
        if y > 1 && height >= 2 && y < height - 2 {
            let row: &Vec<char> = &grid[y];
            let ghost start = hole;
            let mut x: usize = 0;
            while x < row.len()
                invariant
                    x <= row@.len(),
                    hole == spec_hole_row(start, row@, y, width as int, x as int),
                decreases row@.len() - x,
            {
                let c: char = row[x];
                if c != '.' && c != '#' && x > 1 && x < width {
                    if hole.x1 == 0 {
                        hole.x1 = x;
                    }
                    if hole.x2 < x {
                        hole.x2 = x;
                    }
                    if hole.y1 == 0 {
                        hole.y1 = y;
                    }
                    if hole.y2 < y {
                        hole.y2 = y;
                    }
                }
                x = x + 1;
            }
        }
        y = y + 1;
    }
    hole
}

/// Whether the picture is small enough to be a maze: fewer than 2^30 rows
/// of fewer than 2^30 characters, and at least three rows.
pub open spec fn drawable(grid: Seq<Seq<char>>) -> bool {
    &&& 3 <= grid.len() < 0x4000_0000
    &&& forall|y: int| 0 <= y < grid.len() ==> (#[trigger] grid[y]).len() < 0x4000_0000
}

/// The labels at the outer edge of the picture, in the order in which they
/// are read: those above the maze, those below it, those on its left and
/// those on its right. The maze is as wide as the third row is long.
pub open spec fn spec_outer(grid: Seq<Seq<char>>) -> Seq<Tag> {
    let height = grid.len() as int;
    let width = grid[2].len();
    spec_scan(grid, Line { x: 0, y: 0, across: true, back: false }, grid[0].len() as int)
        + spec_scan(
        grid,
        Line { x: 0, y: (height - 2) as usize, across: true, back: true },
        grid[height - 2].len() as int,
    ) + spec_scan(grid, Line { x: 0, y: 0, across: false, back: false }, height) + spec_scan(
        grid,
        Line { x: width as usize, y: 0, across: false, back: true },
        height,
    )
}

/// The labels on the left and right edge of the hole in its first `upto`
/// rows, row by row, the left one first.
pub open spec fn spec_sides(grid: Seq<Seq<char>>, hole: Hole, upto: int) -> Seq<Tag>
    decreases upto,
{
    if upto <= 0 {
        Seq::empty()
    } else {
        let y = (hole.y1 + upto - 1) as usize;
        spec_sides(grid, hole, upto - 1) + spec_scan(
            grid,
            Line { x: hole.x1, y, across: false, back: true },
            1,
        ) + spec_scan(grid, Line { x: (hole.x2 - 1) as usize, y, across: false, back: false }, 1)
    }
}

/// The labels at the edge of the hole, in the order in which they are
/// read: those at its top, those at its bottom, and those at its sides.
pub open spec fn spec_inner(grid: Seq<Seq<char>>, hole: Hole) -> Seq<Tag> {
    spec_scan(
        grid,
        Line { x: hole.x1, y: hole.y1, across: true, back: true },
        hole.x2 - hole.x1 + 1,
    ) + spec_scan(
        grid,
        Line { x: hole.x1, y: (hole.y2 - 1) as usize, across: true, back: false },
        hole.x2 - hole.x1 + 1,
    ) + spec_sides(grid, hole, hole.y2 - hole.y1 + 1)
}

/// What the labels say of the maze: where it starts and ends, and its
/// portals in both directions.
pub struct Plan {
    pub start: (usize, usize),
    pub end: (usize, usize),
    pub teleports_inner: Seq<Portal>,
    pub teleports_outer: Seq<Portal>,
}

/// What the first `upto` labels at the outer edge say of the maze, or `None`
/// when one of them has no partner at the hole. Of several labels with the
/// same letters the last one counts; `AA` marks the start and `ZZ` the end,
/// and every other label makes a portal to its partner at the hole and one
/// back.
pub open spec fn spec_pair(outer: Seq<Tag>, inner: Seq<Tag>, upto: int) -> Option<Plan>
    decreases upto,
{
    if upto <= 0 {
        Some(
            Plan {
                start: (0, 0),
                end: (0, 0),
                teleports_inner: Seq::empty(),
                teleports_outer: Seq::empty(),
            },
        )
    } else {
        let tag = outer[upto - 1];
        match spec_pair(outer, inner, upto - 1) {
            None => None,
            Some(plan) => if spec_find(outer, tag.label, outer.len() as int) != upto - 1 {
                Some(plan)
            } else if tag.label == ('A', 'A') {
                Some(Plan { start: tag.at, ..plan })
            } else if tag.label == ('Z', 'Z') {
                Some(Plan { end: tag.at, ..plan })
            } else {
                let partner = spec_find(inner, tag.label, inner.len() as int);
                if partner < 0 {
                    None
                } else {
                    Some(
                        Plan {
                            teleports_outer: plan.teleports_outer.push(
                                Portal { from: tag.at, to: inner[partner].at },
                            ),
                            teleports_inner: plan.teleports_inner.push(
                                Portal { from: inner[partner].at, to: tag.at },
                            ),
                            ..plan
                        },
                    )
                }
            },
        }
    }
}

/// The maze that the picture `grid` shows, or `None` when the picture is
/// too small or too large, has no hole, or holds a label at the outer edge
/// without a partner at the hole.
pub open spec fn spec_make_map(grid: Seq<Seq<char>>) -> Option<MazeView> {
    if !drawable(grid) {
        None
    } else {
        let hole = spec_hole(grid, grid[2].len() as int, grid.len() as int);
        if hole.y2 == 0 || hole.x2 == 0 {
            None
        } else {
            let outer = spec_outer(grid);
            match spec_pair(outer, spec_inner(grid, hole), outer.len() as int) {
                None => None,
                Some(plan) => Some(
                    MazeView {
                        start: plan.start,
                        end: plan.end,
                        grid,
                        teleports_inner: plan.teleports_inner,
                        teleports_outer: plan.teleports_outer,
                    },
                ),
            }
        }
    }
}

/// Whether the picture is small enough to be a maze.
fn is_drawable(grid: &Vec<Vec<char>>) -> (r: bool)
    ensures
        r == drawable(rows(*grid)),
{
    if grid.len() < 3 || grid.len() >= 0x4000_0000 {
        return false;
    }
    let mut y: usize = 0;
    while y < grid.len()
        invariant
            y <= grid@.len(),
            forall|k: int| 0 <= k < y ==> (#[trigger] rows(*grid)[k]).len() < 0x4000_0000,
        decreases grid@.len() - y,
    {
        if grid[y].len() >= 0x4000_0000 {
            assert(rows(*grid)[y as int].len() >= 0x4000_0000);
            return false;
        }
        y = y + 1;
    }
    true
}

/// The hole lies within the rows looked at.
proof fn lemma_hole_bound(grid: Seq<Seq<char>>, width: int, upto: int)
    requires
        drawable(grid),
        0 <= upto <= grid.len(),
    ensures
        spec_hole(grid, width, upto).x1 < 0x4000_0000,
        spec_hole(grid, width, upto).x2 < 0x4000_0000,
        spec_hole(grid, width, upto).x1 <= spec_hole(grid, width, upto).x2,
        spec_hole(grid, width, upto).y1 <= spec_hole(grid, width, upto).y2,
        spec_hole(grid, width, upto).y2 < upto || upto == 0,
        spec_hole(grid, width, upto).y2 == 0 ==> spec_hole(grid, width, upto).x2 == 0,
    decreases upto,
{
    if upto > 0 {
        lemma_hole_bound(grid, width, upto - 1);
        if 1 < upto - 1 && upto - 1 < grid.len() - 2 {
            lemma_hole_row_bound(
                spec_hole(grid, width, upto - 1),
                grid[upto - 1],
                (upto - 1) as usize,
                width,
                grid[upto - 1].len() as int,
            );
        }
    }
}

/// A row leaves the hole within the picture.
proof fn lemma_hole_row_bound(hole: Hole, row: Seq<char>, y: usize, width: int, upto: int)
    requires
        hole.x1 < 0x4000_0000 && hole.x2 < 0x4000_0000,
        hole.x1 <= hole.x2,
        hole.y1 <= hole.y2,
        hole.y2 < y,
        hole.y2 == 0 ==> hole.x2 == 0,
        2 <= y,
        0 <= upto <= row.len() < 0x4000_0000,
    ensures
        ({
            let after = spec_hole_row(hole, row, y, width, upto);
            &&& after.x1 < 0x4000_0000 && after.x2 < 0x4000_0000
            &&& after.x1 <= after.x2
            &&& after.y1 <= after.y2
            &&& after.y2 <= y
            &&& after.y2 == 0 ==> after.x2 == 0
            &&& after == hole || after.y2 == y
            &&& after.x2 < upto || after.x2 == hole.x2
        }),
    decreases upto,
{
    if upto > 0 {
        lemma_hole_row_bound(hole, row, y, width, upto - 1);
    }
}

/// Reads the maze from its picture, one row of characters after the other.
///
/// The picture shows the maze with two rows and columns of labels round it
/// and a hole with labels in the middle. Returns `None` when the picture is
/// too small or too large, has no hole, or holds a label at the outer edge
/// without a partner at the hole.
#[verifier::rlimit(40)]
pub fn make_map(grid: Vec<Vec<char>>) -> (r: Option<Maze>)
    ensures
        match r {
            Some(maze) => spec_make_map(rows(grid)) == Some(maze@) && maze.grid == grid
                && maze@.wf(),
            None => spec_make_map(rows(grid)).is_none(),
        },
{
    if !is_drawable(&grid) {
        return None;
    }
    let ghost g = rows(grid);
    let height: usize = grid.len();
    let width: usize = grid[2].len();
    assert(g[2].len() == width);
    let hole: Hole = find_hole(&grid, width);
    proof {
        lemma_hole_bound(g, width as int, height as int);
    }
    if hole.y2 == 0 || hole.x2 == 0 {
        return None;
    }
    let mut outer: Vec<Tag> = Vec::new();
    assert(g[0].len() == grid@[0]@.len());
    assert(g[height - 2].len() == grid@[height - 2]@.len());
    scan(&grid, &mut outer, Line { x: 0, y: 0, across: true, back: false }, grid[0].len());
    scan(
        &grid,
        &mut outer,
        Line { x: 0, y: height - 2, across: true, back: true },
        grid[height - 2].len(),
    );
    scan(&grid, &mut outer, Line { x: 0, y: 0, across: false, back: false }, height);
    scan(&grid, &mut outer, Line { x: width, y: 0, across: false, back: true }, height);
    assert(outer@ =~= spec_outer(g));
    let mut inner: Vec<Tag> = Vec::new();
    let span: usize = hole.x2 - hole.x1 + 1;
    scan(&grid, &mut inner, Line { x: hole.x1, y: hole.y1, across: true, back: true }, span);
    scan(&grid, &mut inner, Line { x: hole.x1, y: hole.y2 - 1, across: true, back: false }, span);
    let ghost edges = inner@;
    let mut n: usize = 0;
    let rows_of_hole: usize = hole.y2 - hole.y1 + 1;
    assert(inner@ =~= edges + spec_sides(g, hole, 0));
    while n < rows_of_hole
        invariant
            n <= rows_of_hole,
            rows_of_hole == hole.y2 - hole.y1 + 1,
            g == rows(grid),
            hole.x1 <= hole.x2 < 0x4000_0000,
            hole.y1 <= hole.y2 < 0x4000_0000,
            1 <= hole.x2,
            small_tags(inner@),
            inner@ == edges + spec_sides(g, hole, n as int),
        decreases rows_of_hole - n,
    {
        let y: usize = hole.y1 + n;
        let ghost before = inner@;
        scan(&grid, &mut inner, Line { x: hole.x1, y, across: false, back: true }, 1);
        scan(&grid, &mut inner, Line { x: hole.x2 - 1, y, across: false, back: false }, 1);
        n = n + 1;
        assert(inner@ =~= edges + spec_sides(g, hole, n as int));
    }
    assert(inner@ =~= spec_inner(g, hole));
    let mut start: (usize, usize) = (0, 0);
    let mut end: (usize, usize) = (0, 0);
    let mut teleports_outer: Vec<Portal> = Vec::new();
    let mut teleports_inner: Vec<Portal> = Vec::new();
    let mut k: usize = 0;
    while k < outer.len()
        invariant
            k <= outer@.len(),
            g == rows(grid),
            drawable(g),
            hole == spec_hole(g, g[2].len() as int, g.len() as int),
            hole.y2 != 0 && hole.x2 != 0,
            outer@ == spec_outer(g),
            inner@ == spec_inner(g, hole),
            small_tags(outer@),
            small_tags(inner@),
            small(start.0) && small(start.1),
            small_portals(teleports_inner@),
            small_portals(teleports_outer@),
            spec_pair(outer@, inner@, k as int) == Some(
                Plan {
                    start,
                    end,
                    teleports_inner: teleports_inner@,
                    teleports_outer: teleports_outer@,
                },
            ),
        decreases outer@.len() - k,
    {
        let tag: Tag = outer[k];
        let last: Option<usize> = find(&outer, tag.label);
        let counts: bool = match last {
            Some(l) => l == k,
            None => false,
        };
        if counts {
            if tag.label.0 == 'A' && tag.label.1 == 'A' {
                start = tag.at;
            } else if tag.label.0 == 'Z' && tag.label.1 == 'Z' {
                end = tag.at;
            } else {
                match find(&inner, tag.label) {
                    Some(j) => {
                        let ghost outer_before = teleports_outer@;
                        let ghost inner_before = teleports_inner@;
                        teleports_outer.push(Portal { from: tag.at, to: inner[j].at });
                        teleports_inner.push(Portal { from: inner[j].at, to: tag.at });
                        proof {
                            assert forall|i: int|
                                0 <= i < teleports_outer@.len() implies small(
                                (#[trigger] teleports_outer@[i]).to.0,
                            ) && small(teleports_outer@[i].to.1) by {
                                if i < outer_before.len() {
                                    assert(teleports_outer@[i] == outer_before[i]);
                                }
                            }
                            assert forall|i: int|
                                0 <= i < teleports_inner@.len() implies small(
                                (#[trigger] teleports_inner@[i]).to.0,
                            ) && small(teleports_inner@[i].to.1) by {
                                if i < inner_before.len() {
                                    assert(teleports_inner@[i] == inner_before[i]);
                                }
                            }
                        }
                    },
                    None => {
                        proof {
                            lemma_pair_fails(outer@, inner@, k + 1, outer@.len() as int);
                        }
                        return None;
                    },
                }
            }
        }
        k = k + 1;
    }
    let maze = Maze { start, end, grid, teleports_inner, teleports_outer };
    assert(maze@.grid =~= g);
    assert(maze@.wf()) by {
        assert forall|y: int| 0 <= y < maze@.grid.len() implies (#[trigger] maze@.grid[y]).len()
            < 0x1_0000_0000 by {
            assert(g[y].len() < 0x4000_0000);
        }
    }
    Some(maze)
}

/// Once a label has no partner, no more labels mend that.
proof fn lemma_pair_fails(outer: Seq<Tag>, inner: Seq<Tag>, upto: int, more: int)
    requires
        upto <= more,
        spec_pair(outer, inner, upto).is_none(),
    ensures
        spec_pair(outer, inner, more).is_none(),
    decreases more - upto,
{
    if upto < more {
        lemma_pair_fails(outer, inner, upto, more - 1);
    }
}

} // verus!
