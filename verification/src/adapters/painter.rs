use vstd::prelude::*;
use crate::vm::adapter::{Adapter, Input};
use crate::vm::error::VmError;
use crate::vm::machine::{Snapshot, VM};
use crate::vm::semantics::{spec_run, Status};

verus! {

/// The hull is a square of this many panels a side, with the robot's
/// starting panel in the middle.
pub const PAINT_SIZE: usize = 1000;

pub const HALF_PAINT_SIZE: usize = 500;

/// The way the robot faces.
#[derive(Debug, Clone, Copy, PartialEq, Eq)]
pub enum Direction {
    UP,
    RIGHT,
    DOWN,
    LEFT,
}

/// The direction a quarter turn to the left of `direction`.
pub open spec fn spec_turn_left(direction: Direction) -> Direction {
    match direction {
        Direction::UP => Direction::LEFT,
        Direction::RIGHT => Direction::UP,
        Direction::DOWN => Direction::RIGHT,
        Direction::LEFT => Direction::DOWN,
    }
}

/// The direction a quarter turn to the right of `direction`.
pub open spec fn spec_turn_right(direction: Direction) -> Direction {
    match direction {
        Direction::UP => Direction::RIGHT,
        Direction::RIGHT => Direction::DOWN,
        Direction::DOWN => Direction::LEFT,
        Direction::LEFT => Direction::UP,
    }
}

/// The panel one step from `location` in `direction`.
pub open spec fn ahead(location: (int, int), direction: Direction) -> (int, int) {
    match direction {
        Direction::UP => (location.0, location.1 + 1),
        Direction::RIGHT => (location.0 + 1, location.1),
        Direction::DOWN => (location.0, location.1 - 1),
        Direction::LEFT => (location.0 - 1, location.1),
    }
}

/// Whether `location` is a panel of the hull.
pub open spec fn on_hull(location: (int, int)) -> bool {
    &&& -500 <= location.0 < 500
    &&& -500 <= location.1 < 500
}

pub fn turn_left(direction: &Direction) -> (r: Direction)
    ensures
        r == spec_turn_left(*direction),
{
    match direction {
        Direction::UP => Direction::LEFT,
        Direction::RIGHT => Direction::UP,
        Direction::DOWN => Direction::RIGHT,
        Direction::LEFT => Direction::DOWN,
    }
}

pub fn turn_right(direction: &Direction) -> (r: Direction)
    ensures
        r == spec_turn_right(*direction),
{
    match direction {
        Direction::UP => Direction::RIGHT,
        Direction::RIGHT => Direction::DOWN,
        Direction::DOWN => Direction::LEFT,
        Direction::LEFT => Direction::UP,
    }
}

/// The row and column under which the panel at `loc` is stored, if it is a
/// panel of the hull.
pub fn loc_to_array(loc: (i64, i64)) -> (r: Option<(usize, usize)>)
    ensures
        match r {
            Some((x, y)) => on_hull((loc.0 as int, loc.1 as int)) && x == loc.0 + 500 && y
                == loc.1 + 500,
            None => !on_hull((loc.0 as int, loc.1 as int)),
        },
{
    if -500 <= loc.0 && loc.0 < 500 && -500 <= loc.1 && loc.1 < 500 {
        Some(((loc.0 + 500) as usize, (loc.1 + 500) as usize))
    } else {
        None
    }
}

/// The place of a panel of the hull in the robot's records.
pub open spec fn slot(location: (int, int)) -> int {
    (location.0 + 500) * 1000 + (location.1 + 500)
}

/// The hull-painting robot: it tells the machine the colour of the panel it
/// stands on, and takes two kinds of output in turn, a colour to paint that
/// panel with and a turn to make before it moves one panel forward.
pub struct Painter {
    location: (i64, i64),
    direction: Direction,
    paint_array: Vec<u8>,
    painted: Vec<bool>,
    painted_list: Vec<(i64, i64)>,
    next_out_paint: bool,
}

/// The view of a `Painter`.
pub struct PainterView {
    /// Where the robot stands.
    pub location: (int, int),
    /// The way it faces.
    pub direction: Direction,
    /// The panels that are white now. All others are black.
    pub white: Set<(int, int)>,
    /// The panels that were painted at least once, each once, in the order
    /// in which they were first painted.
    pub painted: Seq<(int, int)>,
    /// Whether the next output is a colour (else it is a turn).
    pub next_out_paint: bool,
}

impl PainterView {
    /// The colour of the panel at `location`: 1 for white, 0 for black.
    pub open spec fn colour(self, location: (int, int)) -> i64 {
        if self.white.contains(location) {
            1
        } else {
            0
        }
    }

    /// A robot at (0, 0) that faces up on an unpainted hull, all black but,
    /// where `start_white` is set, for the panel it stands on.
    pub open spec fn start(start_white: bool) -> PainterView {
        PainterView {
            location: (0, 0),
            direction: Direction::UP,
            white: if start_white {
                set![(0int, 0int)]
            } else {
                Set::empty()
            },
            painted: Seq::empty(),
            next_out_paint: true,
        }
    }
}

impl View for Painter {
    type V = PainterView;

    closed spec fn view(&self) -> PainterView {
        PainterView {
            location: (self.location.0 as int, self.location.1 as int),
            direction: self.direction,
            white: Set::new(
                |l: (int, int)| on_hull(l) && self.paint_array@[slot(l)] == 1,
            ),
            painted: Seq::new(
                self.painted_list@.len(),
                |i: int| (self.painted_list@[i].0 as int, self.painted_list@[i].1 as int),
            ),
            next_out_paint: self.next_out_paint,
        }
    }
}

impl Painter {
    /// A robot at (0, 0) that faces up on an unpainted, black hull.
    pub fn new() -> (p: Painter)
        ensures
            p.valid(),
            p@ == PainterView::start(false),
    {
        let p = Painter {
            location: (0i64, 0i64),
            direction: Direction::UP,
            paint_array: vec![0u8; 1000000],
            painted: vec![false; 1000000],
            painted_list: Vec::new(),
            next_out_paint: true,
        };
        assert(p@.white =~= Set::empty());
        assert(p@.painted =~= Seq::empty());
        p
    }

    /// Makes the panel under the robot white without counting it as painted.
    pub fn start_on_white(&mut self)
        requires
            old(self).valid(),
            old(self)@ == PainterView::start(false),
        ensures
            final(self).valid(),
            final(self)@ == PainterView::start(true),
    {
        self.paint_array.set(500500, 1);
        proof {
            assert(slot((0, 0)) == 500500);
            assert forall|l: (int, int)| on_hull(l) && l != (0int, 0int) implies slot(l)
                != 500500 by {}
            assert forall|l: (int, int)| #[trigger] self@.white.contains(l) == set![(0int, 0int)].contains(l) by {
                if on_hull(l) && l != (0int, 0int) {
                    assert(old(self)@.white.contains(l) == (old(self).paint_array@[slot(l)] == 1));
                }
            }
            assert(self@.white =~= set![(0int, 0int)]);
            assert(self@.painted =~= old(self)@.painted);
        }
    }

    /// The number of panels that were painted at least once.
    pub fn painted_count(&self) -> (n: usize)
        ensures
            n == self@.painted.len(),
    {
        self.painted_list.len()
    }

    /// No panel is listed twice among the painted ones, and all of them are
    /// panels of the hull.
    pub proof fn lemma_painted_distinct(&self)
        requires
            self.valid(),
        ensures
            self@.painted.no_duplicates(),
            forall|i: int| 0 <= i < self@.painted.len() ==> on_hull(#[trigger] self@.painted[i]),
    {
    }

    /// The colour of the panel at `loc`, or `None` off the hull.
    pub fn colour_at(&self, loc: (i64, i64)) -> (r: Option<u8>)
        requires
            self.valid(),
        ensures
            match r {
                Some(c) => on_hull((loc.0 as int, loc.1 as int)) && c == self@.colour(
                    (loc.0 as int, loc.1 as int),
                ),
                None => !on_hull((loc.0 as int, loc.1 as int)),
            },
    {
        match loc_to_array(loc) {
            Some((x, y)) => {
                let c: u8 = self.paint_array[x * PAINT_SIZE + y];
                assert(x * 1000 + y == slot((loc.0 as int, loc.1 as int)));
                Some(c)
            },
            None => None,
        }
    }
}

impl Adapter for Painter {
    closed spec fn valid(&self) -> bool {
        &&& self.paint_array@.len() == 1000000
        &&& self.painted@.len() == 1000000
        &&& forall|i: int| 0 <= i < 1000000 ==> #[trigger] self.paint_array@[i] <= 1
        &&& forall|i: int| 0 <= i < self@.painted.len() ==> on_hull(#[trigger] self@.painted[i])
        &&& forall|i: int|
            0 <= i < self@.painted.len() ==> self.painted@[slot(#[trigger] self@.painted[i])]
        &&& forall|l: (int, int)|
            on_hull(l) && #[trigger] self.painted@[slot(l)] ==> self@.painted.contains(l)
        &&& self@.painted.no_duplicates()
        &&& (!self.next_out_paint ==> on_hull(self@.location))
        &&& -501 <= self.location.0 <= 500
        &&& -501 <= self.location.1 <= 500
    }

    /// The robot reports the colour under it; a robot that has left the
    /// hull has nothing to report.
    open spec fn supply_input(m: PainterView) -> (Input, PainterView) {
        if on_hull(m.location) {
            (Input::Ready(m.colour(m.location)), m)
        } else {
            (Input::Exhausted, m)
        }
    }

    /// A colour, 0 or 1, paints the panel under the robot, which joins the
    /// painted panels unless it is among them; a turn, 0 for
    /// left and 1 for right, turns the robot and moves it one panel on. Any
    /// other value is refused, and so is painting off the hull.
    open spec fn consume_output(m: PainterView, value: i64) -> Option<PainterView> {
        if value != 0 && value != 1 {
            None
        } else if m.next_out_paint {
            if on_hull(m.location) {
                Some(
                    PainterView {
                        white: if value == 1 {
                            m.white.insert(m.location)
                        } else {
                            m.white.remove(m.location)
                        },
                        painted: if m.painted.contains(m.location) {
                            m.painted
                        } else {
                            m.painted.push(m.location)
                        },
                        next_out_paint: false,
                        ..m
                    },
                )
            } else {
                None
            }
        } else {
            let direction = if value == 0 {
                spec_turn_left(m.direction)
            } else {
                spec_turn_right(m.direction)
            };
            Some(
                PainterView {
                    direction,
                    location: ahead(m.location, direction),
                    next_out_paint: true,
                    ..m
                },
            )
        }
    }

    fn next_input(&mut self) -> (r: Input) {
        match loc_to_array(self.location) {
            Some((x, y)) => {
                assert(x * 1000 + y == slot(self@.location));
                let c: u8 = self.paint_array[x * PAINT_SIZE + y];
                if c == 1 {
                    Input::Ready(1)
                } else {
                    Input::Ready(0)
                }
            },
            None => Input::Exhausted,
        }
    }

    fn emit_output(&mut self, value: i64) -> (accepted: bool) {
        if value != 0 && value != 1 {
            return false;
        }
        if self.next_out_paint {
            match loc_to_array(self.location) {
                Some((x, y)) => {
                    let i: usize = x * PAINT_SIZE + y;
                    let ghost here = self@.location;
                    assert(i == slot(here));
                    proof {
                        assert forall|l: (int, int)| on_hull(l) && l != here implies slot(l)
                            != i by {}
                    }
                    self.paint_array.set(
                        i,
                        if value == 1 {
                            1
                        } else {
                            0
                        },
                    );
                    let was_painted: bool = self.painted[i];
                    if !was_painted {
                        self.painted.set(i, true);
                        self.painted_list.push(self.location);
                    }
                    self.next_out_paint = false;
                    proof {
                        let m = old(self)@;
                        assert(self@.white =~= if value == 1 {
                            m.white.insert(here)
                        } else {
                            m.white.remove(here)
                        });
                        if was_painted {
                            assert(self@.painted =~= m.painted);
                        } else {
                            assert(self@.painted =~= m.painted.push(here));
                            assert forall|k: int| 0 <= k < m.painted.len() implies m.painted[k]
                                != here by {
                                assert(old(self).painted@[slot(m.painted[k])]);
                            }
                            assert forall|l: (int, int)|
                                on_hull(l) && #[trigger] self.painted@[slot(l)]
                                implies self@.painted.contains(l) by {
                                if l == here {
                                    assert(self@.painted[m.painted.len() as int] == here);
                                } else {
                                    assert(old(self).painted@[slot(l)]);
                                    let k = choose|k: int|
                                        0 <= k < m.painted.len() && m.painted[k] == l;
                                    assert(self@.painted[k] == l);
                                }
                            }
                            assert forall|k: int| 0 <= k < self@.painted.len() implies self.painted@[slot(
                                #[trigger] self@.painted[k],
                            )] by {
                                if k < m.painted.len() {
                                    assert(self@.painted[k] == m.painted[k]);
                                }
                            }
                        }
                    }
                    true
                },
                None => false,
            }
        } else {
            self.direction = if value == 0 {
                turn_left(&self.direction)
            } else {
                turn_right(&self.direction)
            };
            match self.direction {
                Direction::UP => {
                    self.location.1 = self.location.1 + 1;
                },
                Direction::RIGHT => {
                    self.location.0 = self.location.0 + 1;
                },
                Direction::DOWN => {
                    self.location.1 = self.location.1 - 1;
                },
                Direction::LEFT => {
                    self.location.0 = self.location.0 - 1;
                },
            }
            self.next_out_paint = true;
            proof {
                assert(self@.white =~= old(self)@.white);
                assert(self@.painted =~= old(self)@.painted);
            }
            true
        }
    }
}

/// Runs `program` with a fresh robot for at most `max_steps` steps and
/// returns how the run ended together with the robot. With `start_white`
/// the robot starts on a white panel.
pub fn paint_hull(program: Vec<i64>, start_white: bool, max_steps: u64) -> (r: (
    Result<Status, VmError>,
    Painter,
))
    ensures
        r.1.valid(),
        r.0 == spec_run::<Painter>(
            Snapshot::boot(program@),
            PainterView::start(start_white),
            max_steps as nat,
        ).result,
        r.1@ == spec_run::<Painter>(
            Snapshot::boot(program@),
            PainterView::start(start_white),
            max_steps as nat,
        ).io,
{
    let mut painter = Painter::new();
    if start_white {
        painter.start_on_white();
    }
    let mut vm = VM::new(program);
    let result = vm.run(&mut painter, max_steps);
    (result, painter)
}

} // verus!
