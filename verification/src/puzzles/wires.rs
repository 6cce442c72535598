use std::collections::HashMap;
use vstd::prelude::*;
use crate::puzzles::moves::{Direction, Move};

verus! {

broadcast use vstd::std_specs::hash::group_hash_axioms;

/// A point of the grid on which the wires are laid. Both start at (0, 0).
#[derive(Debug, PartialEq, Eq, Hash, Copy, Clone)]
pub struct Point {
    pub x: i32,
    pub y: i32,
}

impl Point {
    /// Moves the point by `x` to the right and by `y` up.
    pub fn add(&mut self, x: i32, y: i32)
        requires
            i32::MIN <= old(self).x + x <= i32::MAX,
            i32::MIN <= old(self).y + y <= i32::MAX,
        ensures
            final(self).x == old(self).x + x,
            final(self).y == old(self).y + y,
    {
        self.x = self.x + x;
        self.y = self.y + y;
    }

    /// The number of unit steps between the point and (0, 0) along the grid.
    pub open spec fn manhattan(self) -> int {
        (if self.x < 0 {
            -self.x
        } else {
            self.x as int
        }) + (if self.y < 0 {
            -self.y
        } else {
            self.y as int
        })
    }

    /// The number of unit steps between the point and (0, 0) along the grid.
    pub fn distance(&self) -> (d: u64)
        ensures
            d == self.manhattan(),
    {
        let dx: i64 = if self.x < 0 {
            -(self.x as i64)
        } else {
            self.x as i64
        };
        let dy: i64 = if self.y < 0 {
            -(self.y as i64)
        } else {
            self.y as i64
        };
        (dx + dy) as u64
    }
}

/// The integer under which a point is filed: a different one for each point.
pub open spec fn spec_key(p: Point) -> i64 {
    (p.x * 0x1_0000_0000 + (p.y + 0x8000_0000)) as i64
}

/// Different points are filed under different integers.
pub proof fn lemma_key_injective(p: Point, q: Point)
    requires
        spec_key(p) == spec_key(q),
    ensures
        p == q,
{
}

fn key(p: &Point) -> (k: i64)
    ensures
        k == spec_key(*p),
{
    (p.x as i64) * 0x1_0000_0000 + ((p.y as i64) + 0x8000_0000)
}

/// The horizontal part of one unit step in direction `d`.
pub open spec fn step_x(d: Direction) -> int {
    match d {
        Direction::RIGHT => 1,
        Direction::LEFT => -1,
        _ => 0,
    }
}

/// The vertical part of one unit step in direction `d`.
pub open spec fn step_y(d: Direction) -> int {
    match d {
        Direction::UP => 1,
        Direction::DOWN => -1,
        _ => 0,
    }
}

/// The number of unit steps that `moves` take together.
pub open spec fn total_length(moves: Seq<Move>) -> nat
    decreases moves.len(),
{
    if moves.len() == 0 {
        0
    } else {
        total_length(moves.drop_last()) + moves.last().distance as nat
    }
}

/// Where the wire is after `n` unit steps along `moves`, for `n` up to
/// their total length.
pub open spec fn position(moves: Seq<Move>, n: int) -> (int, int)
    decreases moves.len(),
{
    if moves.len() == 0 {
        (0, 0)
    } else {
        let init = moves.drop_last();
        let before = total_length(init) as int;
        if n <= before {
            position(init, n)
        } else {
            let corner = position(init, before);
            let d = moves.last().direction;
            (corner.0 + (n - before) * step_x(d), corner.1 + (n - before) * step_y(d))
        }
    }
}

/// The wire stands on `p` after `n` steps, `n` being at least 1.
pub open spec fn visits(moves: Seq<Move>, p: Point, n: int) -> bool {
    1 <= n && position(moves, n) == (p.x as int, p.y as int)
}

/// The wire stands on `p` after `n` steps and not before, the start aside.
pub open spec fn first_visit(moves: Seq<Move>, p: Point, n: int) -> bool {
    &&& visits(moves, p, n)
    &&& forall|m: int| 1 <= m < n ==> !visits(moves, p, m)
}

/// Every point of the walk along `moves` has 32-bit coordinates, and the
/// number of steps fits in 32 bits.
pub open spec fn walk_fits(moves: Seq<Move>) -> bool {
    &&& total_length(moves) <= u32::MAX
    &&& forall|n: int|
        0 <= n <= total_length(moves) ==> {
            &&& i32::MIN <= (#[trigger] position(moves, n)).0 <= i32::MAX
            &&& i32::MIN <= position(moves, n).1 <= i32::MAX
        }
}

/// The points that a wire passes, each with the number of steps after which
/// the wire first reaches it.
pub struct Wire {
    steps: HashMap<i64, u32>,
    points: Vec<Point>,
}

impl View for Wire {
    type V = Map<Point, u32>;

    closed spec fn view(&self) -> Map<Point, u32> {
        Map::new(
            |p: Point| self.steps@.contains_key(spec_key(p)),
            |p: Point| self.steps@[spec_key(p)],
        )
    }
}

impl Wire {
    /// The wire's own invariant: the list of points holds exactly the points
    /// on file, each once.
    pub closed spec fn wf(&self) -> bool {
        &&& forall|i: int|
            0 <= i < self.points@.len() ==> self.steps@.contains_key(
                spec_key(#[trigger] self.points@[i]),
            )
        &&& forall|k: i64| #[trigger]
            self.steps@.contains_key(k) ==> exists|i: int|
                0 <= i < self.points@.len() && spec_key(#[trigger] self.points@[i]) == k
        &&& forall|i: int, j: int|
            0 <= i < j < self.points@.len() ==> #[trigger] self.points@[i]
                != #[trigger] self.points@[j]
    }

    /// The points of the wire, in the order in which it first reaches them.
    pub closed spec fn spec_points(&self) -> Seq<Point> {
        self.points@
    }

    /// The listed points are the points on file, and none is listed twice.
    pub proof fn lemma_points(&self)
        requires
            self.wf(),
        ensures
            forall|p: Point| self.spec_points().contains(p) <==> self@.contains_key(p),
            self.spec_points().no_duplicates(),
    {
        assert forall|p: Point| self.spec_points().contains(p) <==> self@.contains_key(
            p,
        ) by {
            if self@.contains_key(p) {
                let i = choose|i: int|
                    0 <= i < self.points@.len() && spec_key(#[trigger] self.points@[i])
                        == spec_key(p);
                lemma_key_injective(self.points@[i], p);
            }
        }
    }

    /// A wire that passes no point.
    pub fn new() -> (w: Wire)
        ensures
            w.wf(),
            w@ == Map::<Point, u32>::empty(),
            w.spec_points() == Seq::<Point>::empty(),
    {
        let w = Wire { steps: HashMap::new(), points: Vec::new() };
        assert(w@ =~= Map::<Point, u32>::empty());
        w
    }

    /// The number of steps after which the wire first reaches `p`, if it does.
    pub fn get(&self, p: &Point) -> (r: Option<u32>)
        ensures
            r == if self@.contains_key(*p) {
                Some(self@[*p])
            } else {
                None
            },
    {
        let k: i64 = key(p);
        match self.steps.get(&k) {
            Some(v) => Some(*v),
            None => None,
        }
    }

    /// The points of the wire, in the order in which it first reaches them.
    pub fn points(&self) -> (r: &Vec<Point>)
        ensures
            r@ == self.spec_points(),
    {
        &self.points
    }

    /// Notes that the wire stands on `p` after `len` steps. A point that is
    /// already on file keeps its number.
    #[verifier::rlimit(40)]
    pub fn record(&mut self, p: Point, len: u32)
        requires
            old(self).wf(),
        ensures
            final(self).wf(),
            final(self)@ == if old(self)@.contains_key(p) {
                old(self)@
            } else {
                old(self)@.insert(p, len)
            },
            final(self).spec_points() == if old(self)@.contains_key(p) {
                old(self).spec_points()
            } else {
                old(self).spec_points().push(p)
            },
    {
        let k: i64 = key(&p);
        if self.steps.get(&k).is_none() {
            self.steps.insert(k, len);
            self.points.push(p);
            proof {
                assert forall|q: Point| #[trigger]
                    old(self)@.insert(p, len).contains_key(q) == self@.contains_key(q) by {
                    if spec_key(q) == k {
                        lemma_key_injective(p, q);
                    }
                }
                assert(self@ =~= old(self)@.insert(p, len));
                assert forall|i: int| 0 <= i < self.points@.len() implies self.steps@.contains_key(
                    spec_key(#[trigger] self.points@[i]),
                ) by {
                    if i < old(self).points@.len() {
                        assert(self.points@[i] == old(self).points@[i]);
                    }
                }
                assert forall|k2: i64| #[trigger] self.steps@.contains_key(k2) implies exists|
                    i: int,
                |
                    0 <= i < self.points@.len() && spec_key(#[trigger] self.points@[i])
                        == k2 by {
                    if k2 == k {
                        assert(spec_key(self.points@[self.points@.len() - 1]) == k2);
                    } else {
                        let i = choose|i: int|
                            0 <= i < old(self).points@.len() && spec_key(
                                #[trigger] old(self).points@[i],
                            ) == k2;
                        assert(spec_key(self.points@[i]) == k2);
                    }
                }
                assert forall|i: int, j: int|
                    0 <= i < j < self.points@.len() implies #[trigger] self.points@[i]
                    != #[trigger] self.points@[j] by {
                    if j == self.points@.len() - 1 {
                        assert(self.points@[i] == old(self).points@[i]);
                        assert(old(self).steps@.contains_key(spec_key(old(self).points@[i])));
                    } else {
                        assert(self.points@[i] == old(self).points@[i]);
                        assert(self.points@[j] == old(self).points@[j]);
                    }
                }
            }
        }
    }
}

/// The two wires of a panel.
pub struct Wires {
    pub wire1: Wire,
    pub wire2: Wire,
}

impl Wires {
    /// Both wires pass `p`.
    pub open spec fn crossing(&self, p: Point) -> bool {
        self.wire1@.contains_key(p) && self.wire2@.contains_key(p)
    }

    /// The points that both wires pass, each once.
    #[verifier::rlimit(40)]
    pub fn crossings(&self) -> (r: Vec<Point>)
        requires
            self.wire1.wf(),
        ensures
            forall|p: Point| r@.contains(p) <==> self.crossing(p),
            r@.no_duplicates(),
    {
        let points = self.wire1.points();
        proof {
            self.wire1.lemma_points();
        }
        let mut r: Vec<Point> = Vec::new();
        let mut i: usize = 0;
        while i < points.len()
            invariant
                i <= points.len(),
                points@ == self.wire1.spec_points(),
                points@.no_duplicates(),
                forall|p: Point| points@.contains(p) <==> self.wire1@.contains_key(p),
                forall|p: Point|
                    r@.contains(p) <==> (self.wire2@.contains_key(p) && exists|k: int|
                        0 <= k < i && points@[k] == p),
                forall|a: int| 0 <= a < r@.len() ==> exists|k: int| 0 <= k < i && points@[k] == #[trigger] r@[a],
                r@.no_duplicates(),
            decreases points.len() - i,
        {
            let p: Point = points[i];
            let ghost before = r@;
            if self.wire2.get(&p).is_some() {
                r.push(p);
                proof {
                    assert forall|a: int, b: int| 0 <= a < b < r@.len() implies r@[a] != r@[b] by {
                        if b == r@.len() - 1 {
                            assert(r@[a] == before[a]);
                            let k = choose|k: int| 0 <= k < i && points@[k] == before[a];
                        } else {
                            assert(r@[a] == before[a]);
                            assert(r@[b] == before[b]);
                        }
                    }
                    assert forall|q: Point|
                        r@.contains(q) <==> (self.wire2@.contains_key(q) && exists|k: int|
                            0 <= k < i + 1 && points@[k] == q) by {
                        if r@.contains(q) {
                            let a = choose|a: int| 0 <= a < r@.len() && r@[a] == q;
                            if a < before.len() {
                                assert(before[a] == q);
                                assert(before.contains(q));
                                let k = choose|k: int| 0 <= k < i && points@[k] == q;
                                assert(0 <= k < i + 1 && points@[k] == q);
                            } else {
                                assert(points@[i as int] == q);
                            }
                        }
                        if self.wire2@.contains_key(q) && exists|k: int|
                            0 <= k < i + 1 && points@[k] == q {
                            let k = choose|k: int| 0 <= k < i + 1 && points@[k] == q;
                            if k < i {
                                assert(before.contains(q));
                                let a = choose|a: int| 0 <= a < before.len() && before[a] == q;
                                assert(r@[a] == q);
                            } else {
                                assert(r@[r@.len() - 1] == q);
                            }
                        }
                    }
                    assert forall|a: int| 0 <= a < r@.len() implies exists|k: int|
                        0 <= k < i + 1 && points@[k] == #[trigger] r@[a] by {
                        if a < before.len() {
                            assert(r@[a] == before[a]);
                            let k = choose|k: int| 0 <= k < i && points@[k] == before[a];
                            assert(0 <= k < i + 1 && points@[k] == r@[a]);
                        } else {
                            assert(points@[i as int] == r@[a]);
                        }
                    }
                }
            } else {
                proof {
                    assert forall|q: Point|
                        r@.contains(q) <==> (self.wire2@.contains_key(q) && exists|k: int|
                            0 <= k < i + 1 && points@[k] == q) by {
                        if r@.contains(q) {
                            let k = choose|k: int| 0 <= k < i && points@[k] == q;
                            assert(0 <= k < i + 1 && points@[k] == q);
                        }
                        if self.wire2@.contains_key(q) && exists|k: int|
                            0 <= k < i + 1 && points@[k] == q {
                            let k = choose|k: int| 0 <= k < i + 1 && points@[k] == q;
                            assert(k < i);
                        }
                    }
                    assert forall|a: int| 0 <= a < r@.len() implies exists|k: int|
                        0 <= k < i + 1 && points@[k] == #[trigger] r@[a] by {
                        let k = choose|k: int| 0 <= k < i && points@[k] == r@[a];
                        assert(0 <= k < i + 1 && points@[k] == r@[a]);
                    }
                }
            }
            i = i + 1;
        }
        proof {
            assert forall|p: Point| r@.contains(p) <==> self.crossing(p) by {
                if self.crossing(p) {
                    assert(points@.contains(p));
                    let k = choose|k: int| 0 <= k < points@.len() && points@[k] == p;
                    assert(0 <= k < i && points@[k] == p);
                }
                if r@.contains(p) {
                    let k = choose|k: int| 0 <= k < i && points@[k] == p;
                    assert(points@.contains(p));
                }
            }
        }
        r
    }
}

/// The total length of a list of moves is no less than that of any prefix.
proof fn lemma_total_length_prefix(moves: Seq<Move>, i: int)
    requires
        0 <= i <= moves.len(),
    ensures
        total_length(moves.take(i)) <= total_length(moves),
    decreases moves.len(),
{
    if i == moves.len() {
        assert(moves.take(i) =~= moves);
    } else {
        assert(moves.drop_last().take(i) =~= moves.take(i));
        lemma_total_length_prefix(moves.drop_last(), i);
    }
}

/// Before its first step the wire stands on (0, 0).
proof fn lemma_position_start(moves: Seq<Move>)
    ensures
        position(moves, 0) == (0int, 0int),
    decreases moves.len(),
{
    if moves.len() > 0 {
        lemma_position_start(moves.drop_last());
    }
}

/// While the wire runs along the move at index `i`, each step shifts it by
/// one unit in that move's direction.
proof fn lemma_position_step(moves: Seq<Move>, i: int, n: int)
    requires
        0 <= i < moves.len(),
        total_length(moves.take(i)) <= n < total_length(moves.take(i + 1)),
    ensures
        position(moves, n + 1).0 == position(moves, n).0 + step_x(moves[i].direction),
        position(moves, n + 1).1 == position(moves, n).1 + step_y(moves[i].direction),
    decreases moves.len(),
{
    let init = moves.drop_last();
    if i == moves.len() - 1 {
        assert(moves.take(i) =~= init);
        assert(moves.take(i + 1) =~= moves);
        let d = moves[i].direction;
        let before = total_length(init) as int;
        assert((n + 1 - before) * step_x(d) == (n - before) * step_x(d) + step_x(d))
            by (nonlinear_arith);
        assert((n + 1 - before) * step_y(d) == (n - before) * step_y(d) + step_y(d))
            by (nonlinear_arith);
    } else {
        assert(init.take(i) =~= moves.take(i));
        assert(init.take(i + 1) =~= moves.take(i + 1));
        lemma_total_length_prefix(init, i + 1);
        lemma_position_step(init, i, n);
    }
}

/// Walks along `moves` from (0, 0) and files every point reached, the start
/// aside, under the number of steps after which it is first reached.
#[verifier::rlimit(40)]
pub fn visited(moves: Vec<Move>) -> (w: Wire)
    requires
        walk_fits(moves@),
    ensures
        w.wf(),
        forall|p: Point|
            w@.contains_key(p) <==> exists|n: int|
                n <= total_length(moves@) && #[trigger] visits(moves@, p, n),
        forall|p: Point| #[trigger] w@.contains_key(p) ==> first_visit(moves@, p, w@[p] as int),
{
    let mut result: Wire = Wire::new();
    let mut end: Point = Point { x: 0, y: 0 };
    let mut total_len: u32 = 0;
    let mut i: usize = 0;
    assert(moves@.take(0) =~= Seq::<Move>::empty());
    proof {
        lemma_position_start(moves@);
    }
    while i < moves.len()
        invariant
            i <= moves.len(),
            walk_fits(moves@),
            result.wf(),
            total_len == total_length(moves@.take(i as int)),
            position(moves@, total_len as int) == (end.x as int, end.y as int),
            forall|p: Point|
                result@.contains_key(p) <==> exists|n: int|
                    n <= total_len && #[trigger] visits(moves@, p, n),
            forall|p: Point| #[trigger]
                result@.contains_key(p) ==> first_visit(moves@, p, result@[p] as int),
        decreases moves.len() - i,
    {
        let next: Move = moves[i];
        let direction: Direction = next.direction();
        let (dx, dy): (i32, i32) = match direction {
            Direction::UP => (0, 1),
            Direction::DOWN => (0, -1),
            Direction::LEFT => (-1, 0),
            Direction::RIGHT => (1, 0),
        };
        proof {
            assert(moves@.take(i + 1).drop_last() =~= moves@.take(i as int));
            lemma_total_length_prefix(moves@, i + 1);
        }
        let mut j: u32 = 0;
        while j < next.distance()
            invariant
                i < moves.len(),
                next == moves@[i as int],
                direction == next.direction,
                dx == step_x(direction),
                dy == step_y(direction),
                j <= next.distance,
                walk_fits(moves@),
                result.wf(),
                total_length(moves@.take(i + 1)) == total_length(moves@.take(i as int))
                    + next.distance,
                total_length(moves@.take(i + 1)) <= total_length(moves@),
                total_len == total_length(moves@.take(i as int)) + j,
                position(moves@, total_len as int) == (end.x as int, end.y as int),
                forall|p: Point|
                    result@.contains_key(p) <==> exists|n: int|
                        n <= total_len && #[trigger] visits(moves@, p, n),
                forall|p: Point| #[trigger]
                    result@.contains_key(p) ==> first_visit(moves@, p, result@[p] as int),
            decreases next.distance - j,
        {
            let ghost old_wire = result@;
            proof {
                lemma_position_step(moves@, i as int, total_len as int);
                assert(0 <= total_len + 1 <= total_length(moves@));
                let after = position(moves@, total_len + 1);
                assert(i32::MIN <= after.0 <= i32::MAX);
            }
            end.add(dx, dy);
            total_len = total_len + 1;
            result.record(end, total_len);
            j = j + 1;
            proof {
                assert(visits(moves@, end, total_len as int));
                assert forall|p: Point|
                    result@.contains_key(p) <==> exists|n: int|
                        n <= total_len && #[trigger] visits(moves@, p, n) by {
                    if result@.contains_key(p) {
                        if old_wire.contains_key(p) {
                            let n = choose|n: int|
                                n <= total_len - 1 && #[trigger] visits(moves@, p, n);
                            assert(n <= total_len && visits(moves@, p, n));
                        } else {
                            assert(p == end);
                        }
                    }
                    if exists|n: int| n <= total_len && #[trigger] visits(moves@, p, n) {
                        let n = choose|n: int| n <= total_len && #[trigger] visits(moves@, p, n);
                        if n < total_len {
                            assert(n <= total_len - 1 && visits(moves@, p, n));
                            assert(old_wire.contains_key(p));
                        } else {
                            assert(p == end);
                        }
                    }
                }
                assert forall|p: Point| #[trigger] result@.contains_key(p) implies first_visit(
                    moves@,
                    p,
                    result@[p] as int,
                ) by {
                    if !old_wire.contains_key(p) {
                        assert(p == end);
                        assert forall|m: int| 1 <= m < total_len implies !visits(
                            moves@,
                            p,
                            m,
                        ) by {
                            if visits(moves@, p, m) {
                                assert(m <= total_len - 1 && visits(moves@, p, m));
                            }
                        }
                    }
                }
            }
        }
        i = i + 1;
    }
    assert(moves@.take(moves.len() as int) =~= moves@);
    result
}

/// The least distance along the grid between (0, 0) and a point where the
/// two wires cross, or `None` when they never cross.
pub fn find_closest_intersection(input: &Wires) -> (r: Option<u64>)
    requires
        input.wire1.wf(),
    ensures
        match r {
            Some(d) => {
                &&& exists|p: Point| #[trigger] input.crossing(p) && p.manhattan() == d
                &&& forall|p: Point| #[trigger] input.crossing(p) ==> d <= p.manhattan()
            },
            None => forall|p: Point| !input.crossing(p),
        },
{
    let crossings = input.crossings();
    let mut best: Option<u64> = None;
    let mut i: usize = 0;
    while i < crossings.len()
        invariant
            i <= crossings.len(),
            forall|p: Point| crossings@.contains(p) <==> input.crossing(p),
            match best {
                Some(d) => {
                    &&& exists|k: int| 0 <= k < i && (#[trigger] crossings@[k]).manhattan() == d
                    &&& forall|k: int| 0 <= k < i ==> d <= (#[trigger] crossings@[k]).manhattan()
                },
                None => i == 0,
            },
        decreases crossings.len() - i,
    {
        let d: u64 = crossings[i].distance();
        match best {
            Some(b) => {
                if d < b {
                    best = Some(d);
                }
            },
            None => {
                best = Some(d);
            },
        }
        i = i + 1;
    }
    proof {
        match best {
            Some(d) => {
                let k = choose|k: int| 0 <= k < i && (#[trigger] crossings@[k]).manhattan() == d;
                assert(crossings@.contains(crossings@[k]));
                assert(input.crossing(crossings@[k]));
                assert forall|p: Point| #[trigger] input.crossing(p) implies d
                    <= p.manhattan() by {
                    assert(crossings@.contains(p));
                    let a = choose|a: int| 0 <= a < crossings@.len() && crossings@[a] == p;
                    assert(d <= crossings@[a].manhattan());
                }
            },
            None => {
                assert forall|p: Point| !input.crossing(p) by {
                    if input.crossing(p) {
                        assert(crossings@.contains(p));
                    }
                }
            },
        }
    }
    best
}

/// The number of steps both wires take together to reach `p`.
pub open spec fn combined_steps(input: &Wires, p: Point) -> int {
    input.wire1@[p] + input.wire2@[p]
}

/// The least number of steps that the two wires take together to reach a
/// point where they cross, or `None` when they never cross.
pub fn find_fewest_steps(input: &Wires) -> (r: Option<u64>)
    requires
        input.wire1.wf(),
    ensures
        match r {
            Some(d) => {
                &&& exists|p: Point| #[trigger] input.crossing(p) && combined_steps(input, p) == d
                &&& forall|p: Point| #[trigger] input.crossing(p) ==> d <= combined_steps(input, p)
            },
            None => forall|p: Point| !input.crossing(p),
        },
{
    let crossings = input.crossings();
    let mut best: Option<u64> = None;
    let mut i: usize = 0;
    while i < crossings.len()
        invariant
            i <= crossings.len(),
            forall|p: Point| crossings@.contains(p) <==> input.crossing(p),
            match best {
                Some(d) => {
                    &&& exists|k: int|
                        0 <= k < i && combined_steps(input, #[trigger] crossings@[k]) == d
                    &&& forall|k: int|
                        0 <= k < i ==> d <= combined_steps(input, #[trigger] crossings@[k])
                },
                None => i == 0,
            },
        decreases crossings.len() - i,
    {
        let p: Point = crossings[i];
        assert(crossings@.contains(p));
        assert(input.crossing(p));
        let first: u32 = match input.wire1.get(&p) {
            Some(n) => n,
            None => 0,
        };
        let second: u32 = match input.wire2.get(&p) {
            Some(n) => n,
            None => 0,
        };
        let d: u64 = first as u64 + second as u64;
        match best {
            Some(b) => {
                if d < b {
                    best = Some(d);
                }
            },
            None => {
                best = Some(d);
            },
        }
        i = i + 1;
    }
    proof {
        match best {
            Some(d) => {
                let k = choose|k: int|
                    0 <= k < i && combined_steps(input, #[trigger] crossings@[k]) == d;
                assert(crossings@.contains(crossings@[k]));
                assert(input.crossing(crossings@[k]));
                assert forall|p: Point| #[trigger] input.crossing(p) implies d
                    <= combined_steps(input, p) by {
                    assert(crossings@.contains(p));
                    let a = choose|a: int| 0 <= a < crossings@.len() && crossings@[a] == p;
                    assert(d <= combined_steps(input, crossings@[a]));
                }
            },
            None => {
                assert forall|p: Point| !input.crossing(p) by {
                    if input.crossing(p) {
                        assert(crossings@.contains(p));
                    }
                }
            },
        }
    }
    best
}

} // verus!
