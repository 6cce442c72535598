use std::collections::HashSet;
use vstd::prelude::*;
use crate::puzzles::numbers::{greatest_common_divisor, spec_gcd};
use crate::puzzles::order::sort_targets;

verus! {

broadcast use vstd::std_specs::hash::group_hash_axioms;

/// An asteroid on the chart: column and row.
#[derive(Debug, Copy, Clone, PartialEq, Eq)]
pub struct Point {
    pub x: usize,
    pub y: usize,
}

/// An asteroid in the order in which the laser reaches it.
#[derive(Debug, Copy, Clone, PartialEq, Eq)]
pub struct Target {
    /// The angle at which the laser hits the asteroid, counted on through
    /// all its turns.
    pub key: usize,
    /// The angle at which the asteroid is seen from the laser.
    pub angle: usize,
    /// How many asteroids at the same angle the laser hits before this one.
    pub rank: usize,
    pub point: Point,
}

/// Whether both coordinates of `p` are below 2^31.
pub open spec fn charted(p: Point) -> bool {
    p.x <= 0x7fff_ffff && p.y <= 0x7fff_ffff
}

/// Whether every one of `points` is charted.
pub open spec fn all_charted(points: Seq<Point>) -> bool {
    forall|i: int| 0 <= i < points.len() ==> charted(#[trigger] points[i])
}

/// The square of the distance between `a` and `b`.
pub open spec fn spec_distance(a: Point, b: Point) -> int {
    (a.x - b.x) * (a.x - b.x) + (a.y - b.y) * (a.y - b.y)
}

/// The absolute value of `v`.
pub open spec fn magnitude(v: int) -> nat {
    if v < 0 {
        (-v) as nat
    } else {
        v as nat
    }
}

/// The direction in which `to` is seen from `from`: the steps from `to` to
/// `from` across and down, divided by their greatest common divisor.
pub open spec fn direction(from: Point, to: Point) -> (int, int) {
    let dx = from.x - to.x;
    let dy = from.y - to.y;
    let g = spec_gcd(magnitude(dx), magnitude(dy)) as int;
    (dx / g, dy / g)
}

/// The directions in which the first `upto` of `points` are seen from
/// `from`, `from` itself aside.
pub open spec fn directions(points: Seq<Point>, from: Point, upto: int) -> Set<(int, int)>
    decreases upto,
{
    if upto <= 0 {
        Set::empty()
    } else if points[upto - 1] == from {
        directions(points, from, upto - 1)
    } else {
        directions(points, from, upto - 1).insert(direction(from, points[upto - 1]))
    }
}

/// The number of asteroids that can be seen from `from`: one in each
/// direction in which there is any.
pub open spec fn visible(points: Seq<Point>, from: Point) -> nat {
    directions(points, from, points.len() as int).len()
}

/// The integer under which a direction is filed.
pub open spec fn direction_key(d: (int, int)) -> i64 {
    (d.0 * 0x1_0000_0000 + (d.1 + 0x8000_0000)) as i64
}

impl Point {
    /// The square of the distance between the two points.
    pub fn distance(&self, other: &Point) -> (d: i64)
        requires
            charted(*self),
            charted(*other),
        ensures
            d == spec_distance(*self, *other),
    {
        let delta_x: i64 = self.x as i64 - other.x as i64;
        let delta_y: i64 = self.y as i64 - other.y as i64;
        assert(delta_x * delta_x <= 0x7fff_ffff * 0x7fff_ffff) by (nonlinear_arith)
            requires
                -0x7fff_ffff <= delta_x <= 0x7fff_ffff,
        ;
        assert(delta_y * delta_y <= 0x7fff_ffff * 0x7fff_ffff) by (nonlinear_arith)
            requires
                -0x7fff_ffff <= delta_y <= 0x7fff_ffff,
        ;
        assert(delta_x * delta_x >= 0) by (nonlinear_arith);
        assert(delta_y * delta_y >= 0) by (nonlinear_arith);
        delta_x * delta_x + delta_y * delta_y
    }
}

/// The sets of directions are finite.
proof fn lemma_directions_finite(points: Seq<Point>, from: Point, upto: int)
    ensures
        directions(points, from, upto).finite(),
    decreases upto,
{
    if upto > 0 {
        lemma_directions_finite(points, from, upto - 1);
    }
}

/// The quotient of `v` by the positive divisor `g` of its absolute value,
/// given that absolute value's quotient.
proof fn lemma_signed_quotient(v: int, g: int, q: int)
    requires
        g > 0,
        magnitude(v) == q * g,
    ensures
        v / g == if v < 0 {
            -q
        } else {
            q
        },
{
    if v < 0 {
        assert(v == (-q) * g) by (nonlinear_arith)
            requires
                -v == q * g,
        ;
        vstd::arithmetic::div_mod::lemma_div_multiples_vanish(-q, g);
        assert(g * (-q) == (-q) * g) by (nonlinear_arith);
    } else {
        vstd::arithmetic::div_mod::lemma_div_multiples_vanish(q, g);
        assert(g * q == q * g) by (nonlinear_arith);
    }
}

/// The direction in which `to` is seen from `from`, filed under its key.
fn direction_of(from: &Point, to: &Point) -> (k: i64)
    requires
        charted(*from),
        charted(*to),
        *from != *to,
    ensures
        k == direction_key(direction(*from, *to)),
        -0x8000_0000 < direction(*from, *to).0 < 0x8000_0000,
        -0x8000_0000 < direction(*from, *to).1 < 0x8000_0000,
{
    let dx: i64 = from.x as i64 - to.x as i64;
    let dy: i64 = from.y as i64 - to.y as i64;
    let ax: u64 = if dx < 0 {
        (-dx) as u64
    } else {
        dx as u64
    };
    let ay: u64 = if dy < 0 {
        (-dy) as u64
    } else {
        dy as u64
    };
    let g: u64 = greatest_common_divisor(ax, ay);
    assert(g > 0);
    let qx: u64 = ax / g;
    let qy: u64 = ay / g;
    proof {
        vstd::arithmetic::div_mod::lemma_fundamental_div_mod(ax as int, g as int);
        vstd::arithmetic::div_mod::lemma_fundamental_div_mod(ay as int, g as int);
        assert(ax == qx * g) by (nonlinear_arith)
            requires
                ax == g * qx + 0,
        ;
        assert(ay == qy * g) by (nonlinear_arith)
            requires
                ay == g * qy + 0,
        ;
        lemma_signed_quotient(dx as int, g as int, qx as int);
        lemma_signed_quotient(dy as int, g as int, qy as int);
        assert(qx <= ax) by (nonlinear_arith)
            requires
                ax == qx * g,
                g >= 1,
        ;
        assert(qy <= ay) by (nonlinear_arith)
            requires
                ay == qy * g,
                g >= 1,
        ;
    }
    let sx: i64 = if dx < 0 {
        -(qx as i64)
    } else {
        qx as i64
    };
    let sy: i64 = if dy < 0 {
        -(qy as i64)
    } else {
        qy as i64
    };
    sx * 0x1_0000_0000 + (sy + 0x8000_0000)
}

/// The number of asteroids that can be seen from `from`.
pub fn count_visible(points: &Vec<Point>, from: &Point) -> (count: usize)
    requires
        all_charted(points@),
        charted(*from),
    ensures
        count == visible(points@, *from),
{
    let mut visibles: HashSet<i64> = HashSet::new();
    let ghost mut seen: Set<(int, int)> = Set::empty();
    let ghost key = |d: (int, int)| direction_key(d);
    let mut i: usize = 0;
    assert(seen.map(key) =~= Set::<i64>::empty());
    while i < points.len()
        invariant
            i <= points.len(),
            all_charted(points@),
            charted(*from),
            key == |d: (int, int)| direction_key(d),
            seen == directions(points@, *from, i as int),
            seen.finite(),
            forall|d: (int, int)| #[trigger]
                seen.contains(d) ==> -0x8000_0000 < d.0 < 0x8000_0000 && -0x8000_0000 < d.1
                    < 0x8000_0000,
            visibles@ == seen.map(key),
        decreases points.len() - i,
    {
        let point: Point = points[i];
        if point.x != from.x || point.y != from.y {
            let k: i64 = direction_of(from, &point);
            visibles.insert(k);
            proof {
                let d = direction(*from, point);
                let before = seen;
                seen = seen.insert(d);
                assert(before.insert(d).map(key) =~= before.map(key).insert(key(d))) by {
                    assert forall|x: i64| #[trigger]
                        before.insert(d).map(key).contains(x) == before.map(key).insert(
                            key(d),
                        ).contains(x) by {
                        if before.insert(d).map(key).contains(x) {
                            let w = choose|w: (int, int)| before.insert(d).contains(w) && key(w) == x;
                            if w != d {
                                assert(before.contains(w));
                                assert(before.map(key).contains(x));
                            }
                        }
                        if before.map(key).insert(key(d)).contains(x) {
                            if x == key(d) {
                                assert(before.insert(d).contains(d));
                            } else {
                                let w = choose|w: (int, int)| before.contains(w) && key(w) == x;
                                assert(before.insert(d).contains(w));
                            }
                        }
                    }
                }
            }
        }
        i = i + 1;
    }
    proof {
        assert forall|a: (int, int), b: (int, int)|
            seen.contains(a) && seen.contains(b) && #[trigger] key(a) == #[trigger] key(
                b,
            ) implies a == b by {}
        vstd::set_lib::lemma_map_size(seen, visibles@, key);
    }
    visibles.len()
}

/// The asteroid from which the most others can be seen, and how many: the
/// first such in `points`, or (0, 0) when none can be seen from any.
pub fn part1(points: &Vec<Point>) -> (r: (Point, usize))
    requires
        all_charted(points@),
    ensures
        forall|i: int| 0 <= i < points@.len() ==> visible(points@, #[trigger] points@[i]) <= r.1,
        r.1 == 0 ==> r.0 == (Point { x: 0, y: 0 }),
        r.1 > 0 ==> exists|i: int|
            0 <= i < points@.len() && #[trigger] points@[i] == r.0 && visible(points@, r.0) == r.1
                && forall|j: int| 0 <= j < i ==> visible(points@, #[trigger] points@[j]) < r.1,
{
    let mut best_point: Point = Point { x: 0, y: 0 };
    let mut best_count: usize = 0;
    let mut best_index: usize = 0;
    let mut i: usize = 0;
    while i < points.len()
        invariant
            i <= points.len(),
            all_charted(points@),
            forall|k: int| 0 <= k < i ==> visible(points@, #[trigger] points@[k]) <= best_count,
            best_count == 0 ==> best_point == (Point { x: 0, y: 0 }),
            best_count > 0 ==> best_index < i && points@[best_index as int] == best_point
                && visible(points@, best_point) == best_count && forall|j: int|
                0 <= j < best_index ==> visible(points@, #[trigger] points@[j]) < best_count,
        decreases points.len() - i,
    {
        let point: Point = points[i];
        let count: usize = count_visible(points, &point);
        if count > best_count {
            best_count = count;
            best_point = point;
            best_index = i;
        }
        i = i + 1;
    }
    (best_point, best_count)
}

/// Whether `a` comes before `b` under the laser: at a smaller angle counted
/// through all turns, or at the same one and a smaller angle from the
/// laser, or at the same two and a lower rank.
pub open spec fn precedes(a: Target, b: Target) -> bool {
    a.key < b.key || (a.key == b.key && (a.angle < b.angle || (a.angle == b.angle && a.rank
        < b.rank)))
}

/// Whether asteroid `j` is hit before asteroid `i` although both are seen
/// at the same angle: it is no asteroid at the laser, and it is closer to
/// the laser, or as close and earlier in `points`.
pub open spec fn shields(points: Seq<Point>, laser: Point, angles: Seq<usize>, i: int, j: int)
    -> bool {
    &&& points[j] != laser
    &&& angles[j] == angles[i]
    &&& (spec_distance(points[j], laser) < spec_distance(points[i], laser) || (spec_distance(
        points[j],
        laser,
    ) == spec_distance(points[i], laser) && j < i))
}

/// The number of asteroids among the first `upto` that are hit before
/// asteroid `i` at the same angle.
pub open spec fn spec_rank(
    points: Seq<Point>,
    laser: Point,
    angles: Seq<usize>,
    i: int,
    upto: int,
) -> nat
    decreases upto,
{
    if upto <= 0 {
        0
    } else {
        spec_rank(points, laser, angles, i, upto - 1) + if shields(
            points,
            laser,
            angles,
            i,
            upto - 1,
        ) {
            1nat
        } else {
            0nat
        }
    }
}

/// The rank of an asteroid is below the number of asteroids looked at.
proof fn lemma_rank_bound(points: Seq<Point>, laser: Point, angles: Seq<usize>, i: int, upto: int)
    requires
        0 <= upto,
    ensures
        spec_rank(points, laser, angles, i, upto) <= upto,
    decreases upto,
{
    if upto > 0 {
        lemma_rank_bound(points, laser, angles, i, upto - 1);
    }
}

/// What the laser has to know of asteroid `i`: its angle, its rank among
/// the asteroids at that angle, and the angle counted through all turns,
/// which is its angle plus the entry of `laps` for its rank.
pub open spec fn spec_target(
    points: Seq<Point>,
    laser: Point,
    angles: Seq<usize>,
    laps: Seq<usize>,
    i: int,
) -> Target {
    let rank = spec_rank(points, laser, angles, i, points.len() as int);
    Target {
        key: (angles[i] + laps[rank as int]) as usize,
        angle: angles[i],
        rank: rank as usize,
        point: points[i],
    }
}

/// Whether every asteroid can be given a target: `laps` has an entry for
/// its rank, and its angle counted through all turns fits in a `usize`.
pub open spec fn targetable(
    points: Seq<Point>,
    laser: Point,
    angles: Seq<usize>,
    laps: Seq<usize>,
) -> bool {
    forall|i: int|
        0 <= i < points.len() && #[trigger] points[i] != laser ==> {
            let rank = spec_rank(points, laser, angles, i, points.len() as int);
            rank < laps.len() && angles[i] + laps[rank as int] <= usize::MAX
        }
}

/// The targets of the asteroids among the first `upto` that are not at the
/// laser, in the order of `points`.
pub open spec fn spec_targets(
    points: Seq<Point>,
    laser: Point,
    angles: Seq<usize>,
    laps: Seq<usize>,
    upto: int,
) -> Seq<Target>
    decreases upto,
{
    if upto <= 0 {
        Seq::empty()
    } else if points[upto - 1] == laser {
        spec_targets(points, laser, angles, laps, upto - 1)
    } else {
        spec_targets(points, laser, angles, laps, upto - 1).push(
            spec_target(points, laser, angles, laps, upto - 1),
        )
    }
}

/// The rank of asteroid `i`: the number of asteroids hit before it at the
/// same angle.
pub fn rank_of(points: &Vec<Point>, laser: &Point, angles: &Vec<usize>, i: usize) -> (rank: usize)
    requires
        all_charted(points@),
        charted(*laser),
        angles@.len() == points@.len(),
        i < points@.len(),
    ensures
        rank == spec_rank(points@, *laser, angles@, i as int, points@.len() as int),
{
    let here: i64 = points[i].distance(laser);
    let mut rank: usize = 0;
    let mut j: usize = 0;
    while j < points.len()
        invariant
            j <= points.len(),
            i < points@.len(),
            all_charted(points@),
            charted(*laser),
            angles@.len() == points@.len(),
            here == spec_distance(points@[i as int], *laser),
            rank == spec_rank(points@, *laser, angles@, i as int, j as int),
            rank <= j,
        decreases points.len() - j,
    {
        let other: Point = points[j];
        if (other.x != laser.x || other.y != laser.y) && angles[j] == angles[i] {
            let there: i64 = other.distance(laser);
            if there < here || (there == here && j < i) {
                rank = rank + 1;
            }
        }
        j = j + 1;
    }
    rank
}

/// The asteroids in the order in which a laser at `laser` hits them. The
/// laser turns round and round and hits one asteroid at each angle at which
/// it sees any, the closest first.
///
/// `angles` gives for each of `points` the angle at which it is seen from
/// the laser, and `laps[k]` the angle that `k` full turns add. Returns
/// `None` when `laps` is too short for the asteroids at some angle or an
/// angle counted through all turns does not fit in a `usize`.
pub fn part2(points: &Vec<Point>, laser: Point, angles: &Vec<usize>, laps: &Vec<usize>) -> (r:
    Option<Vec<Target>>)
    requires
        all_charted(points@),
        charted(laser),
        angles@.len() == points@.len(),
    ensures
        match r {
            Some(targets) => {
                &&& targetable(points@, laser, angles@, laps@)
                &&& targets@.to_multiset() == spec_targets(
                    points@,
                    laser,
                    angles@,
                    laps@,
                    points@.len() as int,
                ).to_multiset()
                &&& forall|i: int, j: int|
                    0 <= i < j < targets@.len() ==> !precedes(targets@[j], targets@[i])
            },
            None => !targetable(points@, laser, angles@, laps@),
        },
{
    let mut targets: Vec<Target> = Vec::new();
    let mut i: usize = 0;
    while i < points.len()
        invariant
            i <= points.len(),
            all_charted(points@),
            charted(laser),
            angles@.len() == points@.len(),
            forall|k: int|
                0 <= k < i && #[trigger] points@[k] != laser ==> {
                    let rank = spec_rank(points@, laser, angles@, k, points@.len() as int);
                    rank < laps@.len() && angles@[k] + laps@[rank as int] <= usize::MAX
                },
            targets@ == spec_targets(points@, laser, angles@, laps@, i as int),
        decreases points.len() - i,
    {
        let point: Point = points[i];
        if point.x != laser.x || point.y != laser.y {
            let rank: usize = rank_of(points, &laser, angles, i);
            if rank >= laps.len() {
                return None;
            }
            let key: usize = match angles[i].checked_add(laps[rank]) {
                Some(key) => key,
                None => {
                    return None;
                },
            };
            targets.push(Target { key, angle: angles[i], rank, point });
        }
        i = i + 1;
    }
    sort_targets(&mut targets);
    Some(targets)
}

} // verus!
