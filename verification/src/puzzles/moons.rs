use vstd::prelude::*;
use crate::puzzles::numbers::{least_common_multiple, spec_lcm};

verus! {

#[derive(Debug, Eq, PartialEq, Hash, Copy, Clone)]
pub struct MoonAxis {
    pub pos: i16,
    pub vel: i16,
}

#[derive(Debug, Eq, PartialEq, Hash, Copy, Clone)]
pub struct MoonLocation {
    pub x: i16,
    pub y: i16,
    pub z: i16,
}

#[derive(Debug, Eq, PartialEq, Hash, Copy, Clone)]
pub struct MoonVelocity {
    pub v_x: i16,
    pub v_y: i16,
    pub v_z: i16,
}

#[derive(Debug, Eq, PartialEq, Hash, Copy, Clone)]
pub struct MoonState {
    pub location: MoonLocation,
    pub velocity: MoonVelocity,
}

/// Four moons with their positions and velocities.
#[derive(Debug, Eq, PartialEq, Hash, Copy, Clone)]
pub struct Universe {
    pub moons: [MoonState; 4],
}

/// One coordinate of four moons: positions and velocities along one axis.
pub type UniverseAxis = [MoonAxis; 4];

impl MoonVelocity {
    /// A moon at rest.
    pub fn new() -> (v: MoonVelocity)
        ensures
            v == (MoonVelocity { v_x: 0, v_y: 0, v_z: 0 }),
    {
        MoonVelocity { v_x: 0, v_y: 0, v_z: 0 }
    }
}

impl Universe {
    /// The moons seen along each of the three axes in turn.
    pub fn to_axes(&self) -> (axes: [UniverseAxis; 3])
        ensures
            axes[0]@ == spec_axis(*self, 0),
            axes[1]@ == spec_axis(*self, 1),
            axes[2]@ == spec_axis(*self, 2),
    {
        let m0: MoonState = self.moons[0];
        let m1: MoonState = self.moons[1];
        let m2: MoonState = self.moons[2];
        let m3: MoonState = self.moons[3];
        let axes: [UniverseAxis; 3] = [
            [
                MoonAxis { pos: m0.location.x, vel: m0.velocity.v_x },
                MoonAxis { pos: m1.location.x, vel: m1.velocity.v_x },
                MoonAxis { pos: m2.location.x, vel: m2.velocity.v_x },
                MoonAxis { pos: m3.location.x, vel: m3.velocity.v_x },
            ],
            [
                MoonAxis { pos: m0.location.y, vel: m0.velocity.v_y },
                MoonAxis { pos: m1.location.y, vel: m1.velocity.v_y },
                MoonAxis { pos: m2.location.y, vel: m2.velocity.v_y },
                MoonAxis { pos: m3.location.y, vel: m3.velocity.v_y },
            ],
            [
                MoonAxis { pos: m0.location.z, vel: m0.velocity.v_z },
                MoonAxis { pos: m1.location.z, vel: m1.velocity.v_z },
                MoonAxis { pos: m2.location.z, vel: m2.velocity.v_z },
                MoonAxis { pos: m3.location.z, vel: m3.velocity.v_z },
            ],
        ];
        assert(axes[0]@ =~= spec_axis(*self, 0));
        assert(axes[1]@ =~= spec_axis(*self, 1));
        assert(axes[2]@ =~= spec_axis(*self, 2));
        axes
    }
}

/// The direction in which a moon is pulled by one that lies `d` further
/// along the axis: 1, -1 or, when they lie level, 0.
pub open spec fn sign(d: int) -> int {
    if d > 0 {
        1
    } else if d < 0 {
        -1
    } else {
        0
    }
}

/// The pull on moon `i` of the first `n` moons: one for each that lies
/// further along the axis, less one for each that lies less far.
pub open spec fn pull(pos: Seq<i16>, i: int, n: int) -> int
    decreases n,
{
    if n <= 0 {
        0
    } else {
        pull(pos, i, n - 1) + sign(pos[n - 1] - pos[i])
    }
}

/// The velocity of moon `i` after one step: its velocity changed by the
/// pull of all moons.
pub open spec fn new_vel(pos: Seq<i16>, vel: Seq<i16>, i: int) -> int {
    vel[i] + pull(pos, i, pos.len() as int)
}

/// The position of moon `i` after one step: its position changed by its new
/// velocity.
pub open spec fn new_pos(pos: Seq<i16>, vel: Seq<i16>, i: int) -> int {
    pos[i] + new_vel(pos, vel, i)
}

/// Whether `v` is a 16-bit signed integer.
pub open spec fn fits16(v: int) -> bool {
    i16::MIN <= v <= i16::MAX
}

/// Whether every position and velocity after one step fits in 16 bits.
pub open spec fn step_fits(pos: Seq<i16>, vel: Seq<i16>) -> bool {
    forall|i: int|
        0 <= i < pos.len() ==> fits16(#[trigger] new_vel(pos, vel, i)) && fits16(
            new_pos(pos, vel, i),
        )
}

/// The pull on moon `i` is no stronger than there are moons.
proof fn lemma_pull_bound(pos: Seq<i16>, i: int, n: int)
    requires
        0 <= n,
    ensures
        -n <= pull(pos, i, n) <= n,
    decreases n,
{
    if n > 0 {
        lemma_pull_bound(pos, i, n - 1);
    }
}

/// Positions and velocities along one axis after one step, or `None` when
/// one of them does not fit in 16 bits. Velocities past the last position
/// are dropped.
pub fn advance(pos: &Vec<i16>, vel: &Vec<i16>) -> (r: Option<(Vec<i16>, Vec<i16>)>)
    requires
        vel@.len() >= pos@.len(),
    ensures
        match r {
            Some((p, v)) => {
                &&& step_fits(pos@, vel@)
                &&& p@.len() == pos@.len()
                &&& v@.len() == pos@.len()
                &&& forall|i: int| 0 <= i < pos@.len() ==> #[trigger] v@[i] == new_vel(pos@, vel@, i)
                &&& forall|i: int| 0 <= i < pos@.len() ==> #[trigger] p@[i] == new_pos(pos@, vel@, i)
            },
            None => !step_fits(pos@, vel@),
        },
{
    let n: usize = pos.len();
    let mut p: Vec<i16> = Vec::new();
    let mut v: Vec<i16> = Vec::new();
    let mut i: usize = 0;
    while i < n
        invariant
            i <= n,
            n == pos@.len(),
            vel@.len() >= n,
            p@.len() == i,
            v@.len() == i,
            forall|k: int|
                0 <= k < i ==> fits16(#[trigger] new_vel(pos@, vel@, k)) && fits16(
                    new_pos(pos@, vel@, k),
                ),
            forall|k: int| 0 <= k < i ==> #[trigger] v@[k] == new_vel(pos@, vel@, k),
            forall|k: int| 0 <= k < i ==> #[trigger] p@[k] == new_pos(pos@, vel@, k),
        decreases n - i,
    {
        let here: i16 = pos[i];
        let mut tug: i128 = 0;
        let mut j: usize = 0;
        while j < n
            invariant
                j <= n,
                i < n,
                n == pos@.len(),
                here == pos@[i as int],
                tug == pull(pos@, i as int, j as int),
                -j <= tug <= j,
            decreases n - j,
        {
            if pos[j] > here {
                tug = tug + 1;
            } else if pos[j] < here {
                tug = tug - 1;
            }
            j = j + 1;
        }
        let velocity: i128 = vel[i] as i128 + tug;
        let position: i128 = here as i128 + velocity;
        if velocity < -32768 || velocity > 32767 || position < -32768 || position > 32767 {
            assert(!(fits16(new_vel(pos@, vel@, i as int)) && fits16(
                new_pos(pos@, vel@, i as int),
            )));
            return None;
        }
        v.push(velocity as i16);
        p.push(position as i16);
        i = i + 1;
    }
    Some((p, v))
}

/// The positions of `moons`.
pub open spec fn positions(moons: Seq<MoonAxis>) -> Seq<i16> {
    Seq::new(moons.len(), |i: int| moons[i].pos)
}

/// The velocities of `moons`.
pub open spec fn velocities(moons: Seq<MoonAxis>) -> Seq<i16> {
    Seq::new(moons.len(), |i: int| moons[i].vel)
}

/// The moons of one axis after one step, or `None` when a position or a
/// velocity does not fit in 16 bits.
pub open spec fn spec_axis_step(moons: Seq<MoonAxis>) -> Option<Seq<MoonAxis>> {
    if step_fits(positions(moons), velocities(moons)) {
        Some(
            Seq::new(
                moons.len(),
                |i: int|
                    MoonAxis {
                        pos: new_pos(positions(moons), velocities(moons), i) as i16,
                        vel: new_vel(positions(moons), velocities(moons), i) as i16,
                    },
            ),
        )
    } else {
        None
    }
}

/// The moons of one axis after `k` steps.
pub open spec fn spec_axis_after(moons: Seq<MoonAxis>, k: nat) -> Option<Seq<MoonAxis>>
    decreases k,
{
    if k == 0 {
        Some(moons)
    } else {
        match spec_axis_after(moons, (k - 1) as nat) {
            None => None,
            Some(before) => spec_axis_step(before),
        }
    }
}

/// Moves the moons of one axis by one step. Returns `None` when a position
/// or a velocity does not fit in 16 bits.
pub fn axis_step(moons: &Vec<MoonAxis>) -> (r: Option<Vec<MoonAxis>>)
    ensures
        match r {
            Some(after) => spec_axis_step(moons@) == Some(after@),
            None => spec_axis_step(moons@).is_none(),
        },
{
    let mut pos: Vec<i16> = Vec::new();
    let mut vel: Vec<i16> = Vec::new();
    let mut i: usize = 0;
    while i < moons.len()
        invariant
            i <= moons.len(),
            pos@ =~= positions(moons@).take(i as int),
            vel@ =~= velocities(moons@).take(i as int),
        decreases moons.len() - i,
    {
        pos.push(moons[i].pos);
        vel.push(moons[i].vel);
        i = i + 1;
    }
    assert(pos@ =~= positions(moons@));
    assert(vel@ =~= velocities(moons@));
    match advance(&pos, &vel) {
        None => None,
        Some((p, v)) => {
            let mut after: Vec<MoonAxis> = Vec::new();
            let mut i: usize = 0;
            while i < p.len()
                invariant
                    i <= p.len(),
                    p@.len() == moons@.len(),
                    v@.len() == moons@.len(),
                    after@.len() == i,
                    forall|k: int|
                        0 <= k < i ==> #[trigger] after@[k] == (MoonAxis {
                            pos: p@[k],
                            vel: v@[k],
                        }),
                decreases p.len() - i,
            {
                after.push(MoonAxis { pos: p[i], vel: v[i] });
                i = i + 1;
            }
            assert(after@ =~= spec_axis_step(moons@).unwrap());
            Some(after)
        },
    }
}

/// Whether the two lists hold the same moons.
fn same_axis(a: &Vec<MoonAxis>, b: &Vec<MoonAxis>) -> (r: bool)
    ensures
        r == (a@ == b@),
{
    if a.len() != b.len() {
        return false;
    }
    let mut i: usize = 0;
    while i < a.len()
        invariant
            i <= a.len(),
            a@.len() == b@.len(),
            forall|k: int| 0 <= k < i ==> a@[k] == b@[k],
        decreases a.len() - i,
    {
        if a[i].pos != b[i].pos || a[i].vel != b[i].vel {
            return false;
        }
        i = i + 1;
    }
    assert(a@ =~= b@);
    true
}

/// Within `max_steps` steps the moons do not come back to where they
/// started with the velocities they started with, or a position or a
/// velocity leaves the 16-bit range.
pub open spec fn no_cycle(moons: Seq<MoonAxis>, max_steps: nat) -> bool {
    ||| exists|k: nat| k <= max_steps && (#[trigger] spec_axis_after(moons, k)).is_none()
    ||| forall|k: nat| 1 <= k <= max_steps ==> #[trigger] spec_axis_after(moons, k) != Some(moons)
}

/// The number of steps after which the moons of one axis are first back
/// where they started, with the velocities they started with. Returns
/// `None` when that does not happen within `max_steps` steps, or a position
/// or velocity leaves the 16-bit range before.
pub fn get_axis_cycle(moons: UniverseAxis, max_steps: usize) -> (r: Option<usize>)
    ensures
        match r {
            Some(count) => {
                &&& 1 <= count <= max_steps
                &&& spec_axis_after(moons@, count as nat) == Some(moons@)
                &&& forall|k: nat|
                    1 <= k < count ==> (#[trigger] spec_axis_after(moons@, k)).is_some()
                        && spec_axis_after(moons@, k) != Some(moons@)
            },
            None => no_cycle(moons@, max_steps as nat),
        },
{
    let mut initial: Vec<MoonAxis> = Vec::new();
    initial.push(moons[0]);
    initial.push(moons[1]);
    initial.push(moons[2]);
    initial.push(moons[3]);
    assert(initial@ =~= moons@);
    let mut current: Vec<MoonAxis> = initial.clone();
    assert(current@ =~= initial@);
    let mut count: usize = 0;
    while count < max_steps
        invariant
            count <= max_steps,
            initial@ == moons@,
            spec_axis_after(moons@, count as nat) == Some(current@),
            forall|k: nat|
                1 <= k <= count ==> (#[trigger] spec_axis_after(moons@, k)).is_some()
                    && spec_axis_after(moons@, k) != Some(moons@),
        decreases max_steps - count,
    {
        current = match axis_step(&current) {
            Some(after) => after,
            None => {
                assert(spec_axis_after(moons@, (count + 1) as nat).is_none());
                return None;
            },
        };
        count = count + 1;
        if same_axis(&current, &initial) {
            return Some(count);
        }
    }
    None
}

/// What a search for the first repetition owes: with `Some`, the number of
/// steps is the least common multiple of the cycles of the three axes;
/// with `None`, an axis has no cycle within `max_steps` steps or the least
/// common multiple does not fit in 64 bits.
pub open spec fn repeats(universe: Universe, max_steps: nat, r: Option<u64>) -> bool {
    match r {
            Some(steps) => exists|cx: nat, cy: nat, cz: nat|
                {
                    &&& #[trigger] is_cycle(universe, 0, cx)
                    &&& #[trigger] is_cycle(universe, 1, cy)
                    &&& #[trigger] is_cycle(universe, 2, cz)
                    &&& steps == spec_lcm(spec_lcm(spec_lcm(1, cx), cy), cz)
                },
            None => {
                ||| no_cycle(spec_axis(universe, 0), max_steps)
                ||| no_cycle(spec_axis(universe, 1), max_steps)
                ||| no_cycle(spec_axis(universe, 2), max_steps)
                ||| exists|cx: nat, cy: nat, cz: nat|
                    {
                        &&& #[trigger] is_cycle(universe, 0, cx)
                        &&& #[trigger] is_cycle(universe, 1, cy)
                        &&& #[trigger] is_cycle(universe, 2, cz)
                        &&& spec_lcm(spec_lcm(spec_lcm(1, cx), cy), cz) > u64::MAX
                    }
            },
        }
}

/// The least common multiple of the cycles of the three axes: the number of
/// steps after which all moons are first back where they started, with the
/// velocities they started with. Returns `None` when an axis has no cycle
/// within `max_steps` steps or the number does not fit in 64 bits.
pub fn find_repeated_state_u(universe: Universe, max_steps: usize) -> (r: Option<u64>)
    ensures
        repeats(universe, max_steps as nat, r),
{
    let axes = universe.to_axes();
    let cx: usize = match get_axis_cycle(axes[0], max_steps) {
        Some(c) => c,
        None => {
            return None;
        },
    };
    let cy: usize = match get_axis_cycle(axes[1], max_steps) {
        Some(c) => c,
        None => {
            return None;
        },
    };
    let cz: usize = match get_axis_cycle(axes[2], max_steps) {
        Some(c) => c,
        None => {
            return None;
        },
    };
    proof {
        assert(is_cycle(universe, 0, cx as nat));
        assert(is_cycle(universe, 1, cy as nat));
        assert(is_cycle(universe, 2, cz as nat));
        lemma_lcm_grows(1, cx as nat);
        lemma_lcm_grows(spec_lcm(1, cx as nat), cy as nat);
        lemma_lcm_grows(spec_lcm(spec_lcm(1, cx as nat), cy as nat), cz as nat);
    }
    let a: u64 = match least_common_multiple(1, cx as u64) {
        Some(l) => l,
        None => {
            return None;
        },
    };
    let b: u64 = match least_common_multiple(a, cy as u64) {
        Some(l) => l,
        None => {
            return None;
        },
    };
    least_common_multiple(b, cz as u64)
}

/// The least common multiple of a number and a positive one is no less
/// than the first.
proof fn lemma_lcm_grows(a: nat, b: nat)
    requires
        b >= 1,
    ensures
        spec_lcm(a, b) >= a,
{
    crate::puzzles::numbers::lemma_gcd_divides(a, b);
    let g = crate::puzzles::numbers::spec_gcd(a, b);
    assert(g >= 1);
    assert(b % g == 0);
    assert(b / g >= 1) by {
        vstd::arithmetic::div_mod::lemma_fundamental_div_mod(b as int, g as int);
        if b / g == 0 {
            assert(g * (b / g) == 0) by (nonlinear_arith)
                requires
                    b / g == 0,
            ;
        }
    }
    assert(a * (b / g) >= a) by (nonlinear_arith)
        requires
            b / g >= 1,
    ;
}

/// The moons of `universe` seen along axis `axis`: 0 for x, 1 for y, else z.
pub open spec fn spec_axis(universe: Universe, axis: int) -> Seq<MoonAxis> {
    Seq::new(
        4,
        |i: int|
            if axis == 0 {
                MoonAxis {
                    pos: universe.moons[i].location.x,
                    vel: universe.moons[i].velocity.v_x,
                }
            } else if axis == 1 {
                MoonAxis {
                    pos: universe.moons[i].location.y,
                    vel: universe.moons[i].velocity.v_y,
                }
            } else {
                MoonAxis {
                    pos: universe.moons[i].location.z,
                    vel: universe.moons[i].velocity.v_z,
                }
            },
    )
}

/// After `count` steps, and not before, the moons are back on axis `axis`
/// where they started, with the velocities they started with.
pub open spec fn is_cycle(universe: Universe, axis: int, count: nat) -> bool {
    &&& count >= 1
    &&& spec_axis_after(spec_axis(universe, axis), count) == Some(spec_axis(universe, axis))
    &&& forall|k: nat|
        1 <= k < count ==> (#[trigger] spec_axis_after(spec_axis(universe, axis), k)).is_some()
            && spec_axis_after(spec_axis(universe, axis), k) != Some(spec_axis(universe, axis))
}

/// The same as `find_repeated_state_u` for four moons at rest at
/// `locations`.
pub fn find_repeated_state(locations: Vec<MoonLocation>, max_steps: usize) -> (r: Option<u64>)
    requires
        locations@.len() >= 4,
    ensures
        exists|universe: Universe|
            {
                &&& forall|i: int|
                    0 <= i < 4 ==> #[trigger] universe.moons[i] == (MoonState {
                        location: locations@[i],
                        velocity: MoonVelocity { v_x: 0, v_y: 0, v_z: 0 },
                    })
                &&& #[trigger] repeats(universe, max_steps as nat, r)
            },
{
    let universe = Universe {
        moons: [
            MoonState { location: locations[0], velocity: MoonVelocity::new() },
            MoonState { location: locations[1], velocity: MoonVelocity::new() },
            MoonState { location: locations[2], velocity: MoonVelocity::new() },
            MoonState { location: locations[3], velocity: MoonVelocity::new() },
        ],
    };
    find_repeated_state_u(universe, max_steps)
}

/// The x coordinates of `locations`.
pub open spec fn xs(locations: Seq<MoonLocation>) -> Seq<i16> {
    Seq::new(locations.len(), |i: int| locations[i].x)
}

/// The y coordinates of `locations`.
pub open spec fn ys(locations: Seq<MoonLocation>) -> Seq<i16> {
    Seq::new(locations.len(), |i: int| locations[i].y)
}

/// The z coordinates of `locations`.
pub open spec fn zs(locations: Seq<MoonLocation>) -> Seq<i16> {
    Seq::new(locations.len(), |i: int| locations[i].z)
}

/// The x parts of `velocities`.
pub open spec fn vxs(velocities: Seq<MoonVelocity>) -> Seq<i16> {
    Seq::new(velocities.len(), |i: int| velocities[i].v_x)
}

/// The y parts of `velocities`.
pub open spec fn vys(velocities: Seq<MoonVelocity>) -> Seq<i16> {
    Seq::new(velocities.len(), |i: int| velocities[i].v_y)
}

/// The z parts of `velocities`.
pub open spec fn vzs(velocities: Seq<MoonVelocity>) -> Seq<i16> {
    Seq::new(velocities.len(), |i: int| velocities[i].v_z)
}

/// Whether after one step every coordinate of every position and velocity
/// fits in 16 bits.
pub open spec fn space_step_fits(l: Seq<MoonLocation>, v: Seq<MoonVelocity>) -> bool {
    step_fits(xs(l), vxs(v)) && step_fits(ys(l), vys(v)) && step_fits(zs(l), vzs(v))
}

/// The positions after one step: every moon is pulled along each axis by
/// every other and then moves by its new velocity.
pub open spec fn spec_locations(l: Seq<MoonLocation>, v: Seq<MoonVelocity>) -> Seq<MoonLocation> {
    Seq::new(
        l.len(),
        |i: int|
            MoonLocation {
                x: new_pos(xs(l), vxs(v), i) as i16,
                y: new_pos(ys(l), vys(v), i) as i16,
                z: new_pos(zs(l), vzs(v), i) as i16,
            },
    )
}

/// The velocities after one step. Velocities of moons without a position
/// stay as they are.
pub open spec fn spec_velocities(l: Seq<MoonLocation>, v: Seq<MoonVelocity>) -> Seq<MoonVelocity> {
    Seq::new(
        v.len(),
        |i: int|
            if i < l.len() {
                MoonVelocity {
                    v_x: new_vel(xs(l), vxs(v), i) as i16,
                    v_y: new_vel(ys(l), vys(v), i) as i16,
                    v_z: new_vel(zs(l), vzs(v), i) as i16,
                }
            } else {
                v[i]
            },
    )
}

/// Moves the moons by one step. Returns whether every coordinate still
/// fits in 16 bits; if not, nothing changes.
pub fn run_step(locations: &mut Vec<MoonLocation>, velocities: &mut Vec<MoonVelocity>) -> (ok:
    bool)
    requires
        old(velocities)@.len() >= old(locations)@.len(),
    ensures
        ok == space_step_fits(old(locations)@, old(velocities)@),
        ok ==> final(locations)@ == spec_locations(old(locations)@, old(velocities)@),
        ok ==> final(velocities)@ == spec_velocities(old(locations)@, old(velocities)@),
        !ok ==> final(locations)@ == old(locations)@ && final(velocities)@ == old(velocities)@,
{
    let n: usize = locations.len();
    let mut px: Vec<i16> = Vec::new();
    let mut py: Vec<i16> = Vec::new();
    let mut pz: Vec<i16> = Vec::new();
    let mut i: usize = 0;
    while i < n
        invariant
            i <= n,
            n == locations@.len(),
            *locations == *old(locations),
            px@ =~= xs(locations@).take(i as int),
            py@ =~= ys(locations@).take(i as int),
            pz@ =~= zs(locations@).take(i as int),
        decreases n - i,
    {
        px.push(locations[i].x);
        py.push(locations[i].y);
        pz.push(locations[i].z);
        i = i + 1;
    }
    let mut vx: Vec<i16> = Vec::new();
    let mut vy: Vec<i16> = Vec::new();
    let mut vz: Vec<i16> = Vec::new();
    let mut i: usize = 0;
    while i < velocities.len()
        invariant
            i <= velocities@.len(),
            *velocities == *old(velocities),
            vx@ =~= vxs(velocities@).take(i as int),
            vy@ =~= vys(velocities@).take(i as int),
            vz@ =~= vzs(velocities@).take(i as int),
        decreases velocities@.len() - i,
    {
        vx.push(velocities[i].v_x);
        vy.push(velocities[i].v_y);
        vz.push(velocities[i].v_z);
        i = i + 1;
    }
    assert(px@ =~= xs(locations@) && py@ =~= ys(locations@) && pz@ =~= zs(locations@));
    assert(vx@ =~= vxs(velocities@) && vy@ =~= vys(velocities@) && vz@ =~= vzs(velocities@));
    let (nx, nvx) = match advance(&px, &vx) {
        Some(r) => r,
        None => {
            return false;
        },
    };
    let (ny, nvy) = match advance(&py, &vy) {
        Some(r) => r,
        None => {
            return false;
        },
    };
    let (nz, nvz) = match advance(&pz, &vz) {
        Some(r) => r,
        None => {
            return false;
        },
    };
    let mut i: usize = 0;
    while i < n
        invariant
            i <= n,
            n == locations@.len(),
            n == old(locations)@.len(),
            velocities@.len() == old(velocities)@.len(),
            velocities@.len() >= n,
            nx@.len() == n && ny@.len() == n && nz@.len() == n,
            nvx@.len() == n && nvy@.len() == n && nvz@.len() == n,
            forall|k: int|
                0 <= k < i ==> #[trigger] locations@[k] == (MoonLocation {
                    x: nx@[k],
                    y: ny@[k],
                    z: nz@[k],
                }),
            forall|k: int| i <= k < n ==> #[trigger] locations@[k] == old(locations)@[k],
            forall|k: int|
                0 <= k < i ==> #[trigger] velocities@[k] == (MoonVelocity {
                    v_x: nvx@[k],
                    v_y: nvy@[k],
                    v_z: nvz@[k],
                }),
            forall|k: int|
                i <= k < velocities@.len() ==> #[trigger] velocities@[k] == old(velocities)@[k],
        decreases n - i,
    {
        locations.set(i, MoonLocation { x: nx[i], y: ny[i], z: nz[i] });
        velocities.set(i, MoonVelocity { v_x: nvx[i], v_y: nvy[i], v_z: nvz[i] });
        i = i + 1;
    }
    assert(locations@ =~= spec_locations(old(locations)@, old(velocities)@));
    assert(velocities@ =~= spec_velocities(old(locations)@, old(velocities)@));
    true
}

/// The positions and velocities after `n` steps, or `None` when a
/// coordinate leaves the 16-bit range on the way.
pub open spec fn spec_run_n_steps(n: nat, l: Seq<MoonLocation>, v: Seq<MoonVelocity>) -> Option<
    (Seq<MoonLocation>, Seq<MoonVelocity>),
>
    decreases n,
{
    if n == 0 {
        Some((l, v))
    } else if !space_step_fits(l, v) {
        None
    } else {
        spec_run_n_steps((n - 1) as nat, spec_locations(l, v), spec_velocities(l, v))
    }
}

/// Moves the moons by `n` steps. Returns whether every coordinate fitted
/// in 16 bits all the way; if not, the moons are left as they were before
/// the step that failed.
pub fn run_n_steps(n: usize, locations: &mut Vec<MoonLocation>, velocities: &mut Vec<MoonVelocity>)
    -> (ok: bool)
    requires
        old(velocities)@.len() >= old(locations)@.len(),
    ensures
        match spec_run_n_steps(n as nat, old(locations)@, old(velocities)@) {
            Some((l, v)) => ok && final(locations)@ == l && final(velocities)@ == v,
            None => !ok,
        },
{
    let mut left: usize = n;
    while left > 0
        invariant
            velocities@.len() >= locations@.len(),
            spec_run_n_steps(left as nat, locations@, velocities@) == spec_run_n_steps(
                n as nat,
                old(locations)@,
                old(velocities)@,
            ),
        decreases left,
    {
        if !run_step(locations, velocities) {
            return false;
        }
        left = left - 1;
    }
    true
}

/// The absolute value of `v`.
pub open spec fn magnitude(v: int) -> int {
    if v < 0 {
        -v
    } else {
        v
    }
}

/// The energy of one moon: the sum of the absolute values of its
/// coordinates times the sum of the absolute values of its velocity's.
pub open spec fn moon_energy(l: MoonLocation, v: MoonVelocity) -> int {
    (magnitude(l.x as int) + magnitude(l.y as int) + magnitude(l.z as int)) * (magnitude(
        v.v_x as int,
    ) + magnitude(v.v_y as int) + magnitude(v.v_z as int))
}

/// The energy of the first `n` moons together.
pub open spec fn spec_energy(l: Seq<MoonLocation>, v: Seq<MoonVelocity>, n: int) -> int
    decreases n,
{
    if n <= 0 {
        0
    } else {
        spec_energy(l, v, n - 1) + moon_energy(l[n - 1], v[n - 1])
    }
}

/// The energy of a moon is not negative.
proof fn lemma_energy_grows(l: Seq<MoonLocation>, v: Seq<MoonVelocity>, n: int, m: int)
    requires
        0 <= n <= m,
    ensures
        0 <= spec_energy(l, v, n) <= spec_energy(l, v, m),
    decreases m,
{
    if m > 0 {
        if n < m {
            lemma_energy_grows(l, v, n, m - 1);
        } else {
            lemma_energy_grows(l, v, n - 1, m - 1);
        }
        let a = magnitude(l[m - 1].x as int) + magnitude(l[m - 1].y as int) + magnitude(
            l[m - 1].z as int,
        );
        let b = magnitude(v[m - 1].v_x as int) + magnitude(v[m - 1].v_y as int) + magnitude(
            v[m - 1].v_z as int,
        );
        assert(a * b >= 0) by (nonlinear_arith)
            requires
                a >= 0,
                b >= 0,
        ;
    }
}

/// The energy of the moons together, as far as there are both positions
/// and velocities, or `None` when it does not fit in 64 bits.
pub fn energy(locations: &Vec<MoonLocation>, velocities: &Vec<MoonVelocity>) -> (r: Option<u64>)
    ensures
        ({
            let n = if locations@.len() <= velocities@.len() {
                locations@.len() as int
            } else {
                velocities@.len() as int
            };
            match r {
                Some(e) => e == spec_energy(locations@, velocities@, n),
                None => spec_energy(locations@, velocities@, n) > u64::MAX,
            }
        }),
{
    let n: usize = if locations.len() <= velocities.len() {
        locations.len()
    } else {
        velocities.len()
    };
    let mut total: u64 = 0;
    let mut i: usize = 0;
    while i < n
        invariant
            i <= n,
            n <= locations@.len(),
            n <= velocities@.len(),
            n == if locations@.len() <= velocities@.len() {
                locations@.len()
            } else {
                velocities@.len()
            },
            total == spec_energy(locations@, velocities@, i as int),
        decreases n - i,
    {
        let l: MoonLocation = locations[i];
        let v: MoonVelocity = velocities[i];
        let potential: u64 = absolute(l.x) + absolute(l.y) + absolute(l.z);
        let kinetic: u64 = absolute(v.v_x) + absolute(v.v_y) + absolute(v.v_z);
        assert(potential * kinetic <= 98304 * 98304) by (nonlinear_arith)
            requires
                potential <= 98304,
                kinetic <= 98304,
        ;
        assert(potential * kinetic == moon_energy(locations@[i as int], velocities@[i as int]));
        assert(spec_energy(locations@, velocities@, i + 1) == total + potential * kinetic);
        total = match total.checked_add(potential * kinetic) {
            Some(t) => t,
            None => {
                proof {
                    lemma_energy_grows(locations@, velocities@, i + 1, n as int);
                }
                return None;
            },
        };
        i = i + 1;
    }
    Some(total)
}

/// The absolute value of `v`.
fn absolute(v: i16) -> (r: u64)
    ensures
        r == magnitude(v as int),
        r <= 32768,
{
    if v < 0 {
        (-(v as i64)) as u64
    } else {
        v as u64
    }
}

} // verus!
